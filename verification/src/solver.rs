use vstd::prelude::*;

use crate::bitboard::{Bitboard, BoardView, Player, HEIGHT, WIDTH};
use crate::bits::{bit, lemma_and_single, lemma_bit_xor, on_board};
use std::time::{Duration, Instant};

verus! {

/// Column exploration order: center-first for better alpha-beta pruning.
pub const COLUMN_ORDER: [usize; 7] = [3, 2, 4, 1, 5, 0, 6];

/// Win score offset, kept well above the heuristic evaluation range (about ±276)
/// so that win/loss scores never overlap with positional scores.
pub const WIN_SCORE: i32 = 1_000;

/// How often to check the clock (amortizes the cost of reading it).
const CHECK_INTERVAL: u64 = 1024;

/// Positional weight table: approximates how many 4-in-a-row lines pass through each cell.
/// Indexed as [col][row] where row 0 is the bottom.
pub const POSITION_WEIGHTS: [[i32; 6]; 7] = [
    [3, 4, 5, 5, 4, 3],
    [4, 6, 8, 8, 6, 4],
    [5, 8, 11, 11, 8, 5],
    [7, 10, 13, 13, 10, 7],
    [5, 8, 11, 11, 8, 5],
    [4, 6, 8, 8, 6, 4],
    [3, 4, 5, 5, 4, 3],
];

/// Number of entries in the transposition table (about 16 MB).
const TT_SIZE: usize = 1 << 20;

// ---------------------------------------------------------------------------
// The clock
// ---------------------------------------------------------------------------

/// Makes `std::time::Instant` known to Verus as an opaque type: nothing is
/// assumed of its values.
#[verifier::external_type_specification]
#[verifier::external_body]
pub struct ExInstant(Instant);

/// Calls `std::time::Instant::now`. Nothing is claimed of the reading.
#[verifier::external_body]
fn clock_now() -> Instant {
    Instant::now()
}

/// Calls `std::time::Instant::checked_add`: the instant `timeout` after `start`,
/// or `None` where it cannot be represented. Nothing is claimed of the result.
#[verifier::external_body]
fn instant_after(start: Instant, timeout: Duration) -> Option<Instant> {
    start.checked_add(timeout)
}

/// Compares two instants with `>=` (`PartialOrd::ge` of `std::time::Instant`).
/// Nothing is claimed of the answer.
#[verifier::external_body]
fn instant_at_or_after(a: &Instant, b: &Instant) -> bool {
    a >= b
}

/// Whether the clock has reached the deadline; `None` is a deadline never reached.
/// With a deadline, the answer is the clock's.
fn deadline_passed(deadline: &Option<Instant>) -> (r: bool)
    ensures
        deadline is None ==> !r,
{
    match deadline {
        Some(d) => {
            let now = clock_now();
            instant_at_or_after(&now, d)
        },
        None => false,
    }
}

// ---------------------------------------------------------------------------
// Evaluation
// ---------------------------------------------------------------------------

/// The positional weight of a cell: its entry in `POSITION_WEIGHTS`.
pub open spec fn weight(col: int, row: int) -> int {
    POSITION_WEIGHTS[col][row] as int
}

proof fn lemma_weight_bounds(col: int, row: int)
    requires
        on_board(col, row),
    ensures
        3 <= weight(col, row) <= 13,
{
}

/// What a cell contributes to the evaluation, from the side of the player to move.
pub open spec fn cell_score(v: BoardView, col: int, row: int) -> int {
    if v.owns(v.to_move, col, row) {
        weight(col, row)
    } else if v.owns(v.to_move.opponent(), col, row) {
        -weight(col, row)
    } else {
        0
    }
}

/// Sum of the contributions of the first `n` cells, taken column by column.
pub open spec fn score_upto(v: BoardView, n: int) -> int
    decreases n,
{
    if n <= 0 {
        0
    } else {
        score_upto(v, n - 1) + cell_score(v, (n - 1) / 6, (n - 1) % 6)
    }
}

/// The static evaluation: the weights of the mover's pieces minus those of the opponent's.
pub open spec fn evaluation(v: BoardView) -> int {
    score_upto(v, 42)
}

proof fn lemma_score_bounds(v: BoardView, n: int)
    requires
        0 <= n <= 42,
    ensures
        -13 * n <= score_upto(v, n) <= 13 * n,
    decreases n,
{
    if n > 0 {
        lemma_score_bounds(v, n - 1);
        lemma_weight_bounds((n - 1) / 6, (n - 1) % 6);
    }
}

/// Total weight of the first `n` cells, taken column by column.
spec fn weight_total(n: int) -> int
    decreases n,
{
    if n <= 0 {
        0
    } else {
        weight_total(n - 1) + weight((n - 1) / 6, (n - 1) % 6)
    }
}

proof fn lemma_score_within(v: BoardView, n: int)
    requires
        0 <= n <= 42,
    ensures
        -weight_total(n) <= score_upto(v, n) <= weight_total(n),
    decreases n,
{
    if n > 0 {
        lemma_score_within(v, n - 1);
        lemma_weight_bounds((n - 1) / 6, (n - 1) % 6);
    }
}

proof fn lemma_weight_total()
    ensures
        weight_total(42) == 276,
{
    reveal_with_fuel(weight_total, 43);
}

/// The board `v` with a piece of `p` added at (col, row).
pub open spec fn with_piece(v: BoardView, col: int, row: int, p: Player) -> BoardView {
    BoardView { pieces: v.pieces.insert((col, row), p), to_move: v.to_move, moves: v.moves }
}

proof fn lemma_score_upto_insert(v: BoardView, col: int, row: int, p: Player, n: int)
    requires
        on_board(col, row),
        !v.pieces.contains_key((col, row)),
        0 <= n <= 42,
    ensures
        score_upto(with_piece(v, col, row, p), n) == score_upto(v, n) + if col * 6 + row < n {
            if p == v.to_move {
                POSITION_WEIGHTS[col][row] as int
            } else {
                -(POSITION_WEIGHTS[col][row] as int)
            }
        } else {
            0
        },
    decreases n,
{
    if n > 0 {
        lemma_score_upto_insert(v, col, row, p, n - 1);
        let c = (n - 1) / 6;
        let r = (n - 1) % 6;
        if c == col && r == row {
            assert(col * 6 + row == n - 1);
        } else {
            assert(col * 6 + row != n - 1) by {
                if col * 6 + row == n - 1 {
                    assert((col * 6 + row) / 6 == col && (col * 6 + row) % 6 == row);
                }
            }
        }
    }
}

/// The evaluation counts every cell of the board: adding a piece on an empty cell
/// (col, row) changes it by that cell's entry in `POSITION_WEIGHTS`, upward for a
/// piece of the player to move and downward for one of the opponent; and the empty
/// board evaluates to 0. Together these fix the evaluation of every board.
pub proof fn lemma_evaluation_counts_cells(v: BoardView, col: int, row: int, p: Player)
    requires
        on_board(col, row),
        !v.pieces.contains_key((col, row)),
    ensures
        evaluation(with_piece(v, col, row, p)) == evaluation(v) + if p == v.to_move {
            POSITION_WEIGHTS[col][row] as int
        } else {
            -(POSITION_WEIGHTS[col][row] as int)
        },
        evaluation(BoardView { pieces: Map::empty(), to_move: v.to_move, moves: v.moves }) == 0,
{
    lemma_score_upto_insert(v, col, row, p, 42);
    lemma_score_empty(BoardView { pieces: Map::empty(), to_move: v.to_move, moves: v.moves }, 42);
}

proof fn lemma_score_empty(v: BoardView, n: int)
    requires
        v.pieces == Map::<(int, int), Player>::empty(),
    ensures
        score_upto(v, n) == 0,
    decreases n,
{
    if n > 0 {
        lemma_score_empty(v, n - 1);
    }
}

/// Win and loss scores never overlap with positional scores: the static evaluation
/// of any board lies within ±276, while a decided game scores at least
/// `WIN_SCORE - 21` in magnitude.
pub proof fn lemma_scores_separated(b: Bitboard)
    requires
        b.wf(),
    ensures
        -276 <= evaluation(b@) <= 276,
        WIN_SCORE - b@.moves as int / 2 >= 979,
        WIN_SCORE - (b@.moves as int + 1) / 2 >= 979,
{
    b.lemma_full();
    lemma_score_within(b@, 42);
    lemma_weight_total();
}

/// Evaluate the board position from the current player's perspective.
pub fn evaluate(board: &Bitboard) -> (score: i32)
    ensures
        score == evaluation(board@),
        -276 <= score <= 276,
{
    let current = board.position_mask();
    let all = board.all_mask();
    let opponent = current ^ all;
    let ghost v = board@;
    let mut score: i32 = 0;
    let mut col: usize = 0;
    while col < WIDTH
        invariant
            col <= WIDTH,
            v == board@,
            opponent == current ^ all,
            score == score_upto(v, col * 6),
            forall|c: int, r: int|
                on_board(c, r) ==> bit(current, c * 7 + r) == v.owns(v.to_move, c, r),
            forall|c: int, r: int|
                on_board(c, r) ==> bit(all, c * 7 + r) == v.pieces.contains_key((c, r)),
        decreases WIDTH - col,
    {
        let mut row: usize = 0;
        while row < HEIGHT
            invariant
                col < WIDTH,
                row <= HEIGHT,
                v == board@,
                opponent == current ^ all,
                score == score_upto(v, col * 6 + row),
                forall|c: int, r: int|
                    on_board(c, r) ==> bit(current, c * 7 + r) == v.owns(v.to_move, c, r),
                forall|c: int, r: int|
                    on_board(c, r) ==> bit(all, c * 7 + r) == v.pieces.contains_key((c, r)),
            decreases HEIGHT - row,
        {
            proof {
                assert(col * (HEIGHT + 1) == col * 7) by (nonlinear_arith);
                lemma_score_bounds(v, col * 6 + row);
            }
            let idx = col * (HEIGHT + 1) + row;
            let cell = 1u64 << idx;
            let w = POSITION_WEIGHTS[col][row];
            proof {
                let i = idx as int;
                assert(on_board(col as int, row as int));
                lemma_and_single(current, i);
                lemma_and_single(opponent, i);
                lemma_bit_xor(current, all, i);
                lemma_weight_bounds(col as int, row as int);
                assert(w == weight(col as int, row as int));
                assert((col * 6 + row) / 6 == col && (col * 6 + row) % 6 == row);
            }
            if current & cell != 0 {
                score += w;
            } else if opponent & cell != 0 {
                score -= w;
            }
            proof {
                let n = col * 6 + row;
                assert(score_upto(v, n + 1) == score_upto(v, n) + cell_score(v, col as int, row as int));
                assert(bit(current, col * 7 + row) == v.owns(v.to_move, col as int, row as int));
                assert(score == score_upto(v, n + 1));
            }
            row += 1;
        }
        col += 1;
    }
    proof {
        lemma_score_within(v, 42);
        lemma_weight_total();
    }
    score
}

// ---------------------------------------------------------------------------
// The value of a position
// ---------------------------------------------------------------------------

/// The smallest score the search ever produces.
pub open spec fn floor_score() -> int {
    i32::MIN as int + 1
}

/// The player who just moved has four in a row.
pub open spec fn lost(v: BoardView) -> bool {
    v.four_in_a_row(v.to_move.opponent())
}

/// The game is over: the previous mover won, or the board is full.
pub open spec fn finished(v: BoardView) -> bool {
    lost(v) || v.moves >= 42
}

/// The negamax value of a position searched `depth` plies deep, from the side of the
/// player to move: a loss is worth less the sooner it comes, a full board is worth 0,
/// and the horizon is scored by `evaluation`.
pub open spec fn value(b: Bitboard, depth: nat) -> int
    decreases depth, 8int,
{
    let v = b@;
    if lost(v) {
        -(WIN_SCORE - v.moves as int / 2)
    } else if v.moves >= 42 {
        0
    } else if depth == 0 {
        evaluation(v)
    } else {
        best_child(b, depth, 0)
    }
}

/// The best child value over the open columns `col..7` (`floor_score()` when there is none).
pub open spec fn best_child(b: Bitboard, depth: nat, col: int) -> int
    decreases depth, 7 - col,
{
    if depth == 0 || col < 0 || col >= 7 {
        floor_score()
    } else {
        let rest = best_child(b, depth, col + 1);
        if b@.column_open(col) {
            let s = child_value(b, depth, col);
            if s > rest || !any_open(b@, col + 1) {
                s
            } else {
                rest
            }
        } else {
            rest
        }
    }
}

/// Some column in `col..7` is open.
pub open spec fn any_open(v: BoardView, col: int) -> bool {
    exists|c: int| col <= c < 7 && #[trigger] v.column_open(c)
}

/// The value of dropping a piece into `col`, for the player who drops it.
pub open spec fn child_value(b: Bitboard, depth: nat, col: int) -> int
    decreases depth, 0int,
{
    if depth == 0 {
        0
    } else {
        -value(b.spec_play(col), (depth - 1) as nat)
    }
}

/// `col` is a move of greatest value at search depth `depth`.
pub open spec fn optimal_at(b: Bitboard, depth: nat, col: int) -> bool {
    b@.column_open(col) && child_value(b, depth, col) == best_child(b, depth, 0)
}

/// The fail-soft contract of an alpha-beta search with window (alpha, beta).
pub open spec fn fail_soft(val: int, r: int, alpha: int, beta: int) -> bool {
    &&& (r <= alpha ==> val <= r)
    &&& (r >= beta ==> val >= r)
    &&& (alpha < r < beta ==> val == r)
}

/// Positions whose player to move is fixed by the parity of the move count in the same way.
pub open spec fn in_class(v: BoardView, cls: bool) -> bool {
    ((v.to_move == Player::Red) == (v.moves % 2 == 0)) == cls
}

proof fn lemma_best_child(b: Bitboard, depth: nat, col: int)
    requires
        depth >= 1,
        0 <= col <= 7,
    ensures
        forall|c: int|
            col <= c < 7 && b@.column_open(c) ==> #[trigger] child_value(b, depth, c) <= best_child(
                b,
                depth,
                col,
            ),
        (exists|c: int| col <= c < 7 && #[trigger] b@.column_open(c)) ==> exists|c: int|
            col <= c < 7 && #[trigger] b@.column_open(c) && child_value(b, depth, c) == best_child(
                b,
                depth,
                col,
            ),
        !(exists|c: int| col <= c < 7 && #[trigger] b@.column_open(c)) ==> best_child(b, depth, col)
            == floor_score(),
    decreases 7 - col,
{
    if col < 7 {
        lemma_best_child(b, depth, col + 1);
        if b@.column_open(col) {
            if !any_open(b@, col + 1) {
                assert(b@.column_open(col) && child_value(b, depth, col) == best_child(b, depth, col));
            }
        }
        if exists|c: int| col <= c < 7 && #[trigger] b@.column_open(c) {
            let c = choose|c: int| col <= c < 7 && #[trigger] b@.column_open(c);
            if c > col {
                assert(exists|c: int| col + 1 <= c < 7 && #[trigger] b@.column_open(c));
            }
        }
    }
}

/// A maximum over all open columns that is attained is the best child value.
proof fn lemma_best_child_is(b: Bitboard, depth: nat, m: int, c0: int)
    requires
        depth >= 1,
        b@.column_open(c0),
        child_value(b, depth, c0) == m,
        forall|c: int| #[trigger] b@.column_open(c) ==> child_value(b, depth, c) <= m,
    ensures
        best_child(b, depth, 0) == m,
{
    lemma_best_child(b, depth, 0);
    assert(exists|c: int| 0 <= c < 7 && #[trigger] b@.column_open(c));
}

/// Every position's value lies within ±`WIN_SCORE`: a loss costs at most
/// `WIN_SCORE - moves / 2`, and a position whose previous mover has not won is
/// worth at most `WIN_SCORE - (moves + 1) / 2` (a win on the next move) and at
/// least `-(WIN_SCORE - (moves + 2) / 2)` (a loss on the move after).
pub proof fn lemma_value_bounds(b: Bitboard, depth: nat)
    requires
        b.wf(),
        b@.settled(),
    ensures
        value(b, depth) >= -(WIN_SCORE - b@.moves as int / 2),
        !lost(b@) ==> value(b, depth) <= WIN_SCORE - (b@.moves as int + 1) / 2,
        !lost(b@) ==> value(b, depth) >= -(WIN_SCORE - (b@.moves as int + 2) / 2),
        value(b, depth) <= WIN_SCORE,
        -WIN_SCORE <= value(b, depth),
    decreases depth,
{
    b.lemma_full();
    let v = b@;
    if lost(v) || v.moves >= 42 {
    } else if depth == 0 {
        lemma_score_bounds(v, 42);
    } else {
        v.lemma_not_full_open();
        lemma_best_child(b, depth, 0);
        assert forall|c: int| #[trigger] v.column_open(c) implies -(WIN_SCORE - v.moves as int / 2)
            <= child_value(b, depth, c) <= WIN_SCORE - (v.moves as int + 1) / 2 && child_value(b, depth, c)
            >= -(WIN_SCORE - (v.moves as int + 2) / 2) by {
            b.lemma_spec_play(c);
            v.lemma_drop_settled(c);
            lemma_value_bounds(b.spec_play(c), (depth - 1) as nat);
        }
        let c = choose|c: int| #[trigger] v.column_open(c);
        assert(0 <= c < 7);
    }
}

/// A move that wins at once is worth more than any move that does not, so a column
/// of greatest value at any depth of at least one ply wins at once whenever some
/// open column does.
pub proof fn lemma_optimal_takes_win(b: Bitboard, depth: nat, col: int, c: int)
    requires
        b.wf(),
        b@.settled(),
        depth >= 1,
        optimal_at(b, depth, col),
        b@.column_open(c),
        lost(b@.drop_piece(c)),
    ensures
        lost(b@.drop_piece(col)),
{
    b.lemma_spec_play(col);
    b.lemma_spec_play(c);
    b@.lemma_drop_settled(col);
    b@.lemma_drop_settled(c);
    lemma_best_child(b, depth, 0);
    assert(0 <= c < 7);
    let m = b@.moves as int;
    let win = b.spec_play(c);
    let other = b.spec_play(col);
    assert(value(win, (depth - 1) as nat) == -(WIN_SCORE - (m + 1) / 2));
    assert(child_value(b, depth, c) == WIN_SCORE - (m + 1) / 2);
    assert(child_value(b, depth, c) <= child_value(b, depth, col));
    if !lost(other@) {
        lemma_value_bounds(other, (depth - 1) as nat);
        assert(child_value(b, depth, col) == -value(other, (depth - 1) as nat));
        assert(child_value(b, depth, col) <= WIN_SCORE - (m + 3) / 2);
    }
}

/// When no reply wins at once, a position is worth at most a win on the move after.
proof fn lemma_value_no_quick_win(x: Bitboard, t: nat)
    requires
        x.wf(),
        x@.settled(),
        t >= 1,
        !lost(x@),
        forall|r: int| #[trigger] x@.column_open(r) ==> !lost(x@.drop_piece(r)),
    ensures
        value(x, t) <= WIN_SCORE - (x@.moves as int + 3) / 2,
{
    x.lemma_full();
    if x@.moves < 42 {
        x@.lemma_not_full_open();
        lemma_best_child(x, t, 0);
        let r = choose|r: int|
            0 <= r < 7 && #[trigger] x@.column_open(r) && child_value(x, t, r) == best_child(x, t, 0);
        x.lemma_spec_play(r);
        x@.lemma_drop_settled(r);
        lemma_value_bounds(x.spec_play(r), (t - 1) as nat);
    }
}

/// Dropping a piece into `col` wins at once, or leaves the opponent no move that wins at once.
pub open spec fn wins_or_holds(v: BoardView, col: int) -> bool {
    lost(v.drop_piece(col)) || forall|r: int|
        #[trigger] v.drop_piece(col).column_open(r) ==> !lost(v.drop_piece(col).drop_piece(r))
}

/// A column of greatest value at a depth of at least two plies either wins at once
/// or leaves the opponent no immediate win, whenever some open column does one of
/// the two: a threat that can be blocked is blocked.
pub proof fn lemma_optimal_blocks(b: Bitboard, depth: nat, col: int, c: int)
    requires
        b.wf(),
        b@.settled(),
        depth >= 2,
        optimal_at(b, depth, col),
        b@.column_open(c),
        wins_or_holds(b@, c),
    ensures
        wins_or_holds(b@, col),
{
    if !lost(b@.drop_piece(col)) && exists|r: int|
        #[trigger] b@.drop_piece(col).column_open(r) && lost(b@.drop_piece(col).drop_piece(r)) {
        let m = b@.moves as int;
        let r = choose|r: int|
            #[trigger] b@.drop_piece(col).column_open(r) && lost(b@.drop_piece(col).drop_piece(r));
        b.lemma_spec_play(col);
        b.lemma_spec_play(c);
        b@.lemma_drop_settled(col);
        b@.lemma_drop_settled(c);
        lemma_best_child(b, depth, 0);
        assert(0 <= c < 7);
        let x = b.spec_play(col);
        x.lemma_full();
        x.lemma_spec_play(r);
        assert(!x@.is_full()) by {
            assert(on_board(r, 5));
        }
        assert(!lost(x@) && x@.moves < 42);
        assert(value(x, (depth - 1) as nat) == best_child(x, (depth - 1) as nat, 0));
        lemma_best_child(x, (depth - 1) as nat, 0);
        assert(0 <= r < 7);
        assert(value(x.spec_play(r), (depth - 2) as nat) == -(WIN_SCORE - (m + 2) / 2));
        assert(child_value(x, (depth - 1) as nat, r) == WIN_SCORE - (m + 2) / 2);
        assert(value(x, (depth - 1) as nat) >= WIN_SCORE - (m + 2) / 2);
        assert(child_value(b, depth, col) <= -(WIN_SCORE - (m + 2) / 2));
        let y = b.spec_play(c);
        if lost(y@) {
            assert(value(y, (depth - 1) as nat) == -(WIN_SCORE - (m + 1) / 2));
        } else {
            lemma_value_no_quick_win(y, (depth - 1) as nat);
        }
        assert(child_value(b, depth, c) <= child_value(b, depth, col));
    }
}

// ---------------------------------------------------------------------------
// Transposition table
// ---------------------------------------------------------------------------

/// Bound type stored in a transposition table entry.
#[derive(Debug, Clone, Copy, PartialEq, Eq, Structural)]
pub enum TTFlag {
    Exact,
    LowerBound,
    UpperBound,
}

/// A single transposition table entry.
#[derive(Debug, Clone, Copy)]
pub struct TTEntry {
    key: u64,
    score: i32,
    depth: u8,
    flag: TTFlag,
    best_move: u8,
}

impl TTEntry {
    /// The entry a fresh table holds: key 0, score 0, depth 0, exact, move 0.
    pub closed spec fn is_blank(self) -> bool {
        self.key == 0 && self.score == 0 && self.depth == 0 && self.flag == TTFlag::Exact
            && self.best_move == 0
    }
}

impl Default for TTEntry {
    fn default() -> (e: Self)
        ensures
            e.is_blank(),
    {
        TTEntry { key: 0, score: 0, depth: 0, flag: TTFlag::Exact, best_move: 0 }
    }
}

/// What a stored bound says of the value it was computed for.
spec fn flag_ok(flag: TTFlag, score: int, val: int) -> bool {
    match flag {
        TTFlag::Exact => val == score,
        TTFlag::LowerBound => val >= score,
        TTFlag::UpperBound => val <= score,
    }
}

/// The entry bounds the value of `b` searched `t` plies deep, a depth that lies
/// within the horizon and of which the entry keeps the lowest eight bits (the
/// depth byte truncates; below 256 plies `t` is the stored depth itself).
spec fn sound_at(e: TTEntry, b: Bitboard, t: nat, horizon: int) -> bool {
    &&& t % 256 == e.depth
    &&& e.depth <= t
    &&& t + b@.moves <= horizon
    &&& flag_ok(e.flag, e.score as int, value(b, t))
}

/// An entry is sound for a search whose depth plus move count is `horizon`:
/// for every consistent, settled, unfinished position of the search's parity class
/// that has the entry's key, the entry bounds its value at some depth within the horizon.
/// (The search consults the table only once a position is known to be unfinished.)
spec fn entry_sound(e: TTEntry, horizon: int, cls: bool, base: nat) -> bool {
    e.depth >= 1 ==> forall|b: Bitboard|
        b.wf() && b@.settled() && !finished(b@) && in_class(b@, cls) && b@.moves >= base && #[trigger] b.spec_key() == e.key
            ==> exists|t: nat| #[trigger] sound_at(e, b, t, horizon)
}

/// The entry bounds the value of every position it may stand for at exactly its
/// stored depth, a depth within the horizon.
spec fn entry_exact(e: TTEntry, horizon: int, cls: bool, base: nat) -> bool {
    e.depth >= 1 ==> forall|b: Bitboard|
        b.wf() && b@.settled() && !finished(b@) && in_class(b@, cls) && b@.moves >= base && #[trigger] b.spec_key() == e.key
            ==> e.depth + b@.moves <= horizon && flag_ok(e.flag, e.score as int, value(b, e.depth as nat))
}

/// Fixed-size transposition table with always-replace policy.
struct TranspositionTable {
    entries: Vec<TTEntry>,
    mask: usize,
}

impl TranspositionTable {
    spec fn well_formed(&self) -> bool {
        &&& self.entries.len() == self.mask + 1
        &&& forall|i: int| 0 <= i < self.entries.len() ==> #[trigger] self.entries[i].score >= floor_score()
    }

    spec fn sound(&self, horizon: int, cls: bool, base: nat) -> bool {
        forall|i: int| 0 <= i < self.entries.len() ==> entry_sound(#[trigger] self.entries[i], horizon, cls, base)
    }

    /// Every entry bounds its positions' values at exactly its stored depth.
    spec fn sound_exact(&self, horizon: int, cls: bool, base: nat) -> bool {
        forall|i: int| 0 <= i < self.entries.len() ==> entry_exact(#[trigger] self.entries[i], horizon, cls, base)
    }

    spec fn slot(&self, key: u64) -> int {
        ((key as usize) & self.mask) as int
    }

    fn new(size: usize) -> (tt: Self)
        requires
            size >= 1,
        ensures
            tt.well_formed(),
            tt.entries.len() == size,
            forall|i: int| 0 <= i < size ==> (#[trigger] tt.entries[i]).is_blank(),
    {
        let mut entries: Vec<TTEntry> = Vec::new();
        while entries.len() < size
            invariant
                entries.len() <= size,
                forall|i: int| 0 <= i < entries.len() ==> (#[trigger] entries[i]).is_blank(),
            decreases size - entries.len(),
        {
            let e = TTEntry::default();
            proof {
                assert(e.is_blank());
            }
            entries.push(e);
        }
        TranspositionTable { entries, mask: size - 1 }
    }

    proof fn lemma_slot(&self, key: u64)
        requires
            self.well_formed(),
        ensures
            0 <= self.slot(key) < self.entries.len(),
    {
        let m = self.mask;
        let k = key as usize;
        assert(k & m <= m) by (bit_vector);
    }

    fn index(&self, key: u64) -> (i: usize)
        requires
            self.well_formed(),
        ensures
            i == self.slot(key),
            i < self.entries.len(),
    {
        let m = self.mask;
        let k = key as usize;
        assert(k & m <= m) by (bit_vector);
        k & m
    }

    fn probe(&self, key: u64) -> (r: Option<TTEntry>)
        requires
            self.well_formed(),
        ensures
            r == if self.entries[self.slot(key)].key == key {
                Some(self.entries[self.slot(key)])
            } else {
                None::<TTEntry>
            },
    {
        let entry = self.entries[self.index(key)];
        if entry.key == key {
            Some(entry)
        } else {
            None
        }
    }

    fn store(&mut self, entry: TTEntry)
        requires
            old(self).well_formed(),
            entry.score >= floor_score(),
        ensures
            final(self).well_formed(),
            final(self).mask == old(self).mask,
            final(self).entries@ == old(self).entries@.update(old(self).slot(entry.key), entry),
    {
        let i = self.index(entry.key);
        self.entries.set(i, entry);
    }
}

/// Some consistent, settled position with at least `n` moves has this key.
pub open spec fn key_of_later(key: u64, n: nat) -> bool {
    exists|p: Bitboard| p.wf() && p@.settled() && p@.moves >= n && #[trigger] p.spec_key() == key
}

/// Each slot of `after` holds what it held in `before`, or an entry for a position
/// with at least `n` moves, or, when `own` holds, an entry with key `key`.
spec fn stores_within(before: TranspositionTable, after: TranspositionTable, n: nat, own: bool, key: u64) -> bool {
    &&& after.entries.len() == before.entries.len()
    &&& after.mask == before.mask
    &&& forall|i: int|
        0 <= i < after.entries.len() ==> #[trigger] after.entries[i] == before.entries[i] || key_of_later(
            after.entries[i].key,
            n,
        ) || (own && after.entries[i].key == key)
}

proof fn lemma_stores_chain(
    t0: TranspositionTable,
    t1: TranspositionTable,
    t2: TranspositionTable,
    n: nat,
    own: bool,
    child: Bitboard,
)
    requires
        stores_within(t0, t1, n, false, 0),
        stores_within(t1, t2, n + 1, own, child.spec_key()),
        child.wf(),
        child@.settled(),
        child@.moves >= n,
    ensures
        stores_within(t0, t2, n, false, 0),
{
    assert forall|i: int| 0 <= i < t2.entries.len() implies #[trigger] t2.entries[i] == t0.entries[i]
        || key_of_later(t2.entries[i].key, n) by {
        if t2.entries[i] != t1.entries[i] {
            if key_of_later(t2.entries[i].key, n + 1) {
                let p = choose|p: Bitboard|
                    p.wf() && p@.settled() && p@.moves >= n + 1 && #[trigger] p.spec_key() == t2.entries[i].key;
                assert(p.spec_key() == t2.entries[i].key);
            } else {
                assert(child.spec_key() == t2.entries[i].key);
            }
        } else {
            assert(t1.entries[i] == t0.entries[i] || key_of_later(t1.entries[i].key, n));
        }
    }
}

/// A search that stored nothing for its own position leaves the slot of its key
/// holding no new entry for that key.
proof fn lemma_no_own_entry(before: TranspositionTable, after: TranspositionTable, b: Bitboard)
    requires
        before.well_formed(),
        b.wf(),
        b@.settled(),
        stores_within(before, after, b@.moves + 1, false, 0),
    ensures
        after.entries[before.slot(b.spec_key())].key == b.spec_key() ==> after.entries[before.slot(
            b.spec_key(),
        )] == before.entries[before.slot(b.spec_key())],
{
    let i = before.slot(b.spec_key());
    before.lemma_slot(b.spec_key());
    if after.entries[i].key == b.spec_key() && after.entries[i] != before.entries[i] {
        assert(key_of_later(after.entries[i].key, b@.moves + 1));
        let p = choose|p: Bitboard|
            p.wf() && p@.settled() && p@.moves >= b@.moves + 1 && #[trigger] p.spec_key() == after.entries[i].key;
        Bitboard::lemma_key_injective(b, p);
    }
}

proof fn lemma_sound_update(old_tt: TranspositionTable, new_tt: TranspositionTable, i: int, e: TTEntry, horizon: int, cls: bool, base: nat)
    requires
        old_tt.sound(horizon, cls, base),
        0 <= i < old_tt.entries.len(),
        new_tt.entries@ == old_tt.entries@.update(i, e),
        entry_sound(e, horizon, cls, base),
    ensures
        new_tt.sound(horizon, cls, base),
{
    assert forall|j: int| 0 <= j < new_tt.entries.len() implies entry_sound(#[trigger] new_tt.entries[j], horizon, cls, base) by {
        if j != i {
            assert(new_tt.entries[j] == old_tt.entries[j]);
        }
    }
}

/// Within 256 plies of the positions a table may hold, the depth byte is exact:
/// the table bounds each value at exactly the stored depth.
broadcast proof fn lemma_sound_exact(tt: TranspositionTable, horizon: int, cls: bool, base: nat)
    requires
        horizon - base <= 255,
    ensures
        tt.sound(horizon, cls, base) <==> #[trigger] tt.sound_exact(horizon, cls, base),
{
    if tt.sound(horizon, cls, base) {
        assert forall|j: int| 0 <= j < tt.entries.len() implies entry_exact(#[trigger] tt.entries[j], horizon, cls, base) by {
            let e = tt.entries[j];
            assert(entry_sound(e, horizon, cls, base));
            if e.depth >= 1 {
                assert forall|b: Bitboard|
                    b.wf() && b@.settled() && !finished(b@) && in_class(b@, cls) && b@.moves >= base
                        && #[trigger] b.spec_key() == e.key implies e.depth + b@.moves <= horizon && flag_ok(
                    e.flag,
                    e.score as int,
                    value(b, e.depth as nat),
                ) by {
                    let t = choose|t: nat| #[trigger] sound_at(e, b, t, horizon);
                    assert(t == e.depth);
                }
            }
        }
    }
    if tt.sound_exact(horizon, cls, base) {
        assert forall|j: int| 0 <= j < tt.entries.len() implies entry_sound(#[trigger] tt.entries[j], horizon, cls, base) by {
            let e = tt.entries[j];
            assert(entry_exact(e, horizon, cls, base));
            if e.depth >= 1 {
                assert forall|b: Bitboard|
                    b.wf() && b@.settled() && !finished(b@) && in_class(b@, cls) && b@.moves >= base
                        && #[trigger] b.spec_key() == e.key implies exists|t: nat| #[trigger] sound_at(e, b, t, horizon) by {
                    assert(sound_at(e, b, e.depth as nat, horizon));
                }
            }
        }
    }
}

/// The byte a depth is stored in keeps its lowest eight bits.
proof fn lemma_depth_byte(depth: u32)
    ensures
        (depth as u8) as int == depth % 256,
{
    assert((depth as u8) as u32 == depth % 256) by (bit_vector);
}

proof fn lemma_sound_widen(tt: TranspositionTable, horizon: int, cls: bool, base: nat)
    requires
        tt.sound(horizon, cls, base),
    ensures
        tt.sound(horizon + 1, cls, base),
{
    assert forall|j: int| 0 <= j < tt.entries.len() implies entry_sound(#[trigger] tt.entries[j], horizon + 1, cls, base) by {
        let e = tt.entries[j];
        assert(entry_sound(e, horizon, cls, base));
        if e.depth >= 1 {
            assert forall|b: Bitboard|
                b.wf() && b@.settled() && !finished(b@) && in_class(b@, cls) && b@.moves >= base && #[trigger] b.spec_key() == e.key
                    implies exists|t: nat| #[trigger] sound_at(e, b, t, horizon + 1) by {
                let t = choose|t: nat| #[trigger] sound_at(e, b, t, horizon);
                assert(sound_at(e, b, t, horizon + 1));
            }
        }
    }
}

/// Mutable state threaded through the search tree.
struct SearchState {
    deadline: Option<Instant>,
    node_count: u64,
    timed_out: bool,
    tt: TranspositionTable,
    /// The number of nodes visited so far, without wrapping.
    visited: Ghost<nat>,
}

impl SearchState {
    /// The node counter is the number of nodes visited, wrapping at 2^64.
    spec fn counted(&self) -> bool {
        self.node_count == self.visited@ % 0x1_0000_0000_0000_0000
    }
}

/// Counting one more node: the wrapping counter stays the count modulo 2^64, and
/// its remainder by 1024 is that of the count.
proof fn lemma_count_step(n: u64, v: nat)
    requires
        n == v % 0x1_0000_0000_0000_0000,
    ensures
        (if n + 1 > u64::MAX {
            n + 1 - 0x1_0000_0000_0000_0000
        } else {
            n + 1
        }) == (v + 1) % 0x1_0000_0000_0000_0000,
        ((v + 1) % 0x1_0000_0000_0000_0000) % 1024 == (v + 1) % 1024,
{
    vstd::arithmetic::div_mod::lemma_add_mod_noop(v as int, 1, 0x1_0000_0000_0000_0000);
    vstd::arithmetic::div_mod::lemma_mod_mod((v + 1) as int, 1024, 0x40_0000_0000_0000);
    assert(1024 * 0x40_0000_0000_0000int == 0x1_0000_0000_0000_0000int);
}

/// What a clock reading at a check does: a reading at or past the deadline stops
/// the search; any other reading leaves the state as it was.
fn record_check(state: &mut SearchState, passed: bool)
    ensures
        final(state).timed_out == (old(state).timed_out || passed),
        final(state).deadline == old(state).deadline,
        final(state).node_count == old(state).node_count,
        final(state).tt == old(state).tt,
        final(state).visited == old(state).visited,
{
    if passed {
        state.timed_out = true;
    }
}

/// The clock is read when the node count reaches `k`.
pub open spec fn clock_check_at(k: int) -> bool {
    k % 1024 == 0
}

/// Some node numbered in `(a, b]` is a clock check.
pub open spec fn check_between(a: int, b: int) -> bool {
    exists|k: int| a < k <= b && #[trigger] clock_check_at(k)
}

/// A bound on the nodes a search of `depth` plies visits: the node itself and at
/// most eight subtrees one ply shallower.
pub open spec fn max_nodes(depth: nat) -> nat
    decreases depth,
{
    if depth == 0 {
        1
    } else {
        1 + 8 * max_nodes((depth - 1) as nat)
    }
}

/// A bound on the nodes iterative deepening visits through the search of `depth`
/// plies: each root search of `d` plies visits at most eight subtrees of `d - 1` plies.
pub open spec fn search_nodes(depth: nat) -> nat
    decreases depth,
{
    if depth == 0 {
        0
    } else {
        search_nodes((depth - 1) as nat) + 8 * max_nodes((depth - 1) as nat)
    }
}

/// The searches of one, two and three plies visit at most 664 nodes together, fewer
/// than the 1024 nodes before the first clock check, so they always complete.
pub proof fn lemma_shallow_searches_complete()
    ensures
        search_nodes(1) == 8,
        search_nodes(2) == 80,
        search_nodes(3) == 664,
        !check_between(0, 664),
{
    reveal_with_fuel(search_nodes, 4);
    reveal_with_fuel(max_nodes, 3);
}

/// Result of a completed root-level search at a given depth.
struct SearchResult {
    best_col: usize,
    best_score: i32,
}

// ---------------------------------------------------------------------------
// Search
// ---------------------------------------------------------------------------

/// Move order: the table's best move first when it is playable, then the open
/// columns in center-first order.
pub open spec fn order_head(v: BoardView, tt_best_move: Option<usize>) -> Seq<usize> {
    match tt_best_move {
        Some(t) => if t < 7 && v.column_open(t as int) {
            seq![t]
        } else {
            Seq::empty()
        },
        None => Seq::empty(),
    }
}

/// The open columns among the first `k` of the center-first order, leaving out the table's move.
pub open spec fn order_tail(v: BoardView, tt_best_move: Option<usize>, k: int) -> Seq<usize>
    decreases k,
{
    if k <= 0 {
        Seq::empty()
    } else {
        let col = COLUMN_ORDER[k - 1];
        let rest = order_tail(v, tt_best_move, k - 1);
        if tt_best_move != Some(col) && v.column_open(col as int) {
            rest.push(col)
        } else {
            rest
        }
    }
}

/// The order in which a node tries its moves.
pub open spec fn move_order(v: BoardView, tt_best_move: Option<usize>) -> Seq<usize> {
    order_head(v, tt_best_move) + order_tail(v, tt_best_move, 7)
}

proof fn lemma_order_tail(v: BoardView, tt_best_move: Option<usize>, k: int)
    requires
        0 <= k <= 7,
    ensures
        order_tail(v, tt_best_move, k).len() <= k,
        forall|i: int|
            0 <= i < order_tail(v, tt_best_move, k).len() ==> v.column_open(
                #[trigger] order_tail(v, tt_best_move, k)[i] as int,
            ),
        forall|j: int|
            0 <= j < k && tt_best_move != Some(#[trigger] COLUMN_ORDER[j]) && v.column_open(
                COLUMN_ORDER[j] as int,
            ) ==> order_tail(v, tt_best_move, k).contains(COLUMN_ORDER[j]),
    decreases k,
{
    if k > 0 {
        lemma_order_tail(v, tt_best_move, k - 1);
        let rest = order_tail(v, tt_best_move, k - 1);
        let col = COLUMN_ORDER[k - 1];
        if tt_best_move != Some(col) && v.column_open(col as int) {
            assert forall|j: int|
                0 <= j < k && tt_best_move != Some(#[trigger] COLUMN_ORDER[j]) && v.column_open(
                    COLUMN_ORDER[j] as int,
                ) implies rest.push(col).contains(COLUMN_ORDER[j]) by {
                if j < k - 1 {
                    let w = choose|w: int| 0 <= w < rest.len() && rest[w] == COLUMN_ORDER[j];
                    assert(rest.push(col)[w] == COLUMN_ORDER[j]);
                } else {
                    assert(rest.push(col)[rest.len() as int] == COLUMN_ORDER[j]);
                }
            }
        }
    }
}

proof fn lemma_move_order(v: BoardView, tt_best_move: Option<usize>)
    ensures
        move_order(v, tt_best_move).len() <= 8,
        forall|i: int|
            0 <= i < move_order(v, tt_best_move).len() ==> v.column_open(
                #[trigger] move_order(v, tt_best_move)[i] as int,
            ),
        forall|c: int| #[trigger] v.column_open(c) ==> move_order(v, tt_best_move).contains(c as usize),
{
    lemma_order_tail(v, tt_best_move, 7);
    let head = order_head(v, tt_best_move);
    let tail = order_tail(v, tt_best_move, 7);
    let all = move_order(v, tt_best_move);
    assert forall|i: int| 0 <= i < all.len() implies v.column_open(#[trigger] all[i] as int) by {
        if i >= head.len() {
            assert(all[i] == tail[i - head.len()]);
        }
    }
    assert forall|c: int| #[trigger] v.column_open(c) implies all.contains(c as usize) by {
        let j: int = if c == 3 {
            0
        } else if c == 2 {
            1
        } else if c == 4 {
            2
        } else if c == 1 {
            3
        } else if c == 5 {
            4
        } else if c == 0 {
            5
        } else {
            6
        };
        assert(COLUMN_ORDER[j] == c);
        if tt_best_move == Some(c as usize) {
            assert(all[0] == c as usize);
        } else {
            let w = choose|w: int| 0 <= w < tail.len() && tail[w] == COLUMN_ORDER[j];
            assert(all[head.len() + w] == c as usize);
        }
    }
}

/// The columns to try, best candidate first.
fn ordered_moves(board: &Bitboard, tt_best_move: Option<usize>) -> (order: Vec<usize>)
    ensures
        order@ == move_order(board@, tt_best_move),
        order.len() <= 8,
        forall|i: int| 0 <= i < order.len() ==> board@.column_open(#[trigger] order[i] as int),
        forall|c: int| #[trigger] board@.column_open(c) ==> order@.contains(c as usize),
{
    proof {
        lemma_move_order(board@, tt_best_move);
    }
    let mut order: Vec<usize> = Vec::new();
    if let Some(tt_col) = tt_best_move {
        if tt_col < WIDTH && board.can_play(tt_col) {
            order.push(tt_col);
        }
    }
    let ghost head = order@;
    let mut k: usize = 0;
    while k < WIDTH
        invariant
            k <= WIDTH,
            head == order_head(board@, tt_best_move),
            order@ == head + order_tail(board@, tt_best_move, k as int),
        decreases WIDTH - k,
    {
        let col = COLUMN_ORDER[k];
        let is_tt = match tt_best_move {
            Some(t) => t == col,
            None => false,
        };
        if !is_tt && board.can_play(col) {
            order.push(col);
        }
        proof {
            assert(is_tt == (tt_best_move == Some(col)));
        }
        k += 1;
    }
    order
}

/// Negamax with alpha-beta pruning, transposition table, and timeout support.
///
/// Fail-soft: the result may lie outside [alpha, beta]. Once the clock has run out,
/// `state.timed_out` is set and the result (0) is to be discarded by the caller.
/// Each call counts one node (the counter wraps at 2^64); the clock is read only
/// when the node count reaches a multiple of 1024, so a search times out only where
/// such a check falls among the nodes it visits, stops right at that check, and never
/// times out without a deadline. A finished position or a depth of 0 visits one node,
/// is scored exactly whatever the window, and leaves the table as it was. A search
/// stores entries only for positions deeper than its own, and one for its own
/// position only when it completes.
///
/// With `exact` set (a settled position and a table that is
/// sound for this search), a search that did not time out keeps the fail-soft contract
/// with respect to `value`.
#[verifier::rlimit(40)]
fn negamax(
    board: &Bitboard,
    depth: u32,
    alpha: i32,
    beta: i32,
    state: &mut SearchState,
    Ghost(cls): Ghost<bool>,
    Ghost(base): Ghost<nat>,
    Ghost(exact): Ghost<bool>,
) -> (score: i32)
    requires
        floor_score() <= alpha,
        floor_score() <= beta,
        old(state).tt.well_formed(),
        old(state).counted(),
        exact ==> {
            &&& alpha < beta
            &&& board@.settled()
            &&& in_class(board@, cls)
            &&& base <= board@.moves
            &&& old(state).tt.sound(depth + board@.moves, cls, base)
        },
    ensures
        score >= floor_score(),
        final(state).tt.well_formed(),
        final(state).counted(),
        final(state).deadline == old(state).deadline,
        old(state).visited@ < final(state).visited@ <= old(state).visited@ + max_nodes(depth as nat),
        old(state).timed_out ==> final(state).timed_out,
        old(state).deadline is None && !old(state).timed_out ==> !final(state).timed_out,
        final(state).timed_out ==> score == 0,
        old(state).timed_out ==> final(state).tt == old(state).tt && final(state).visited@
            == old(state).visited@ + 1,
        !old(state).timed_out && final(state).timed_out ==> old(state).deadline is Some
            && check_between(old(state).visited@ as int, final(state).visited@ as int),
        !old(state).timed_out && final(state).timed_out ==> final(state).node_count % 1024 == 0,
        board@.settled() ==> stores_within(
            old(state).tt,
            final(state).tt,
            board@.moves + 1,
            !final(state).timed_out,
            board.spec_key(),
        ),
        board@.settled() && final(state).timed_out && final(state).tt.entries[old(state).tt.slot(
            board.spec_key(),
        )].key == board.spec_key() ==> final(state).tt.entries[old(state).tt.slot(board.spec_key())]
            == old(state).tt.entries[old(state).tt.slot(board.spec_key())],
        finished(board@) || depth == 0 ==> final(state).visited@ == old(state).visited@ + 1,
        !old(state).timed_out && (finished(board@) || depth == 0) && !clock_check_at(
            old(state).visited@ + 1int,
        ) ==> !final(state).timed_out,
        !final(state).timed_out && (finished(board@) || depth == 0) ==> score == value(
            *board,
            depth as nat,
        ) && final(state).tt == old(state).tt,
        exact ==> final(state).tt.sound(depth + board@.moves, cls, base),
        exact && depth + board@.moves - base <= 255 ==> final(state).tt.sound_exact(
            depth + board@.moves,
            cls,
            base,
        ),
        exact && !final(state).timed_out ==> fail_soft(
            value(*board, depth as nat),
            score as int,
            alpha as int,
            beta as int,
        ),
    decreases depth,
{
    broadcast use lemma_sound_exact;

    proof {
        use_type_invariant(board);
        board.lemma_full();
    }
    let ghost horizon = depth + board@.moves;
    let ghost v0 = state.visited@;
    let ghost d0 = state.deadline;
    let ghost t0 = state.tt;
    // The node counter only paces the clock checks; it wraps around after 2^64 nodes.
    proof {
        lemma_count_step(state.node_count, state.visited@);
    }
    state.node_count = state.node_count.wrapping_add(1);
    state.visited = Ghost(state.visited@ + 1);
    if state.node_count % CHECK_INTERVAL == 0 {
        let passed = deadline_passed(&state.deadline);
        record_check(state, passed);
        proof {
            assert(clock_check_at(state.visited@ as int));
        }
    }
    if state.timed_out {
        return 0;
    }
    // Check if the previous player just won (after play() swapped perspective).
    if board.is_winning() {
        return -(WIN_SCORE - board.move_count() as i32 / 2);
    }
    if board.is_draw() {
        return 0;
    }
    if depth == 0 {
        return evaluate(board);
    }
    proof {
        if exact {
            lemma_value_bounds(*board, depth as nat);
        }
    }
    // Upper bound pruning: the best we can do is win on our next move.
    let max_possible = WIN_SCORE - (board.move_count() as i32 + 1) / 2;
    if max_possible <= alpha {
        return alpha;
    }
    let key = board.key();
    let window_alpha = alpha;
    let mut alpha = alpha;
    let mut tt_best_move: Option<usize> = None;

    // Probe the table.
    let probed = state.tt.probe(key);
    if let Some(entry) = probed {
        tt_best_move = Some(entry.best_move as usize);
        proof {
            let i = state.tt.slot(key);
            state.tt.lemma_slot(key);
            assert(entry.score >= floor_score());
            if exact && entry.depth >= depth {
                assert(entry_sound(state.tt.entries[i], horizon, cls, base));
                assert(board.spec_key() == entry.key);
                let t = choose|t: nat| #[trigger] sound_at(entry, *board, t, horizon);
                assert(t == depth);
            }
        }
        if entry.depth as u32 >= depth {
            match entry.flag {
                TTFlag::Exact => {
                    return entry.score;
                },
                TTFlag::LowerBound => {
                    if entry.score >= beta {
                        return entry.score;
                    }
                    if entry.score > alpha {
                        alpha = entry.score;
                    }
                },
                TTFlag::UpperBound => {
                    if entry.score <= alpha {
                        return entry.score;
                    }
                },
            }
        }
    }
    let ghost a0 = alpha;
    let ghost v = value(*board, depth as nat);
    let ghost m = max_nodes((depth - 1) as nat);
    assert(max_nodes(depth as nat) == 1 + 8 * m);

    let mut best_score: i32 = i32::MIN + 1;
    let mut best_col: u8 = COLUMN_ORDER[0] as u8;

    // Move order: table's best move first, then the remaining columns.
    let order = ordered_moves(board, tt_best_move);
    let mut cutoff = false;
    let mut i: usize = 0;
    while i < order.len() && !cutoff
        invariant
            i <= order.len(),
            order.len() <= 8,
            forall|k: int| 0 <= k < order.len() ==> board@.column_open(#[trigger] order[k] as int),
            forall|c: int| #[trigger] board@.column_open(c) ==> order@.contains(c as usize),
            floor_score() <= window_alpha <= a0 <= alpha,
            floor_score() <= beta,
            exact ==> alpha < beta,
            best_score >= floor_score(),
            !cutoff ==> alpha == if best_score > a0 {
                best_score
            } else {
                a0
            },
            best_col < 7,
            depth >= 1,
            !state.timed_out,
            state.tt.well_formed(),
            state.counted(),
            state.deadline == d0,
            d0 == old(state).deadline,
            v0 == old(state).visited@,
            !old(state).timed_out,
            !finished(board@),
            t0 == old(state).tt,
            t0.well_formed(),
            board@.settled() ==> stores_within(t0, state.tt, board@.moves + 1, false, 0),
            m == max_nodes((depth - 1) as nat),
            max_nodes(depth as nat) == 1 + 8 * m,
            v0 < state.visited@ <= v0 + 1 + i * m,
            horizon == depth + board@.moves,
            v == value(*board, depth as nat),
            exact ==> {
                    &&& board@.settled()
                &&& in_class(board@, cls)
            &&& base <= board@.moves
                &&& state.tt.sound(horizon, cls, base)
                &&& (a0 > window_alpha ==> v >= a0)
                &&& (!cutoff ==> forall|k: int|
                    0 <= k < i ==> child_value(*board, depth as nat, #[trigger] order[k] as int)
                        <= best_score)
                &&& (!cutoff && best_score > a0 ==> exists|k: int|
                    0 <= k < i && child_value(*board, depth as nat, #[trigger] order[k] as int)
                        == best_score)
                &&& (cutoff ==> best_score >= beta && exists|k: int|
                    0 <= k < i && child_value(*board, depth as nat, #[trigger] order[k] as int)
                        >= best_score)
            },
        decreases order.len() - i,
    {
        let col = order[i];
        let mut child = *board;
        child.play(col).expect("checked can_play");
        proof {
            if exact {
                board@.lemma_drop_settled(col as int);
            }
        }
        let ghost vb = state.visited@;
        let ghost mid = state.tt;
        let child_score = negamax(&child, depth - 1, -beta, -alpha, state, Ghost(cls), Ghost(base), Ghost(exact));
        let score = -child_score;
        proof {
            use_type_invariant(&child);
            use_type_invariant(board);
            if board@.settled() {
                board@.lemma_drop_settled(col as int);
                lemma_stores_chain(t0, mid, state.tt, board@.moves + 1, !state.timed_out, child);
                if state.timed_out {
                    lemma_no_own_entry(t0, state.tt, *board);
                }
            }
            assert(v0 + 1 + i * m + m == v0 + 1 + (i + 1) * m) by (nonlinear_arith);
            assert((i + 1) * m <= 8 * m) by (nonlinear_arith)
                requires
                    i + 1 <= 8,
            ;
        }
        if state.timed_out {
            proof {
                let k = choose|k: int| vb < k <= state.visited@ && #[trigger] clock_check_at(k);
                assert(v0 < k);
            }
            return 0;
        }
        let ghost prev_best = best_score;
        if score > best_score {
            best_score = score;
            best_col = col as u8;
        }
        if score >= beta {
            cutoff = true;
        } else if score > alpha {
            alpha = score;
        }
        proof {
            if exact {
                assert(child_value(*board, depth as nat, col as int) == -value(child, (depth - 1) as nat));
                assert(order[i as int] == col);
            }
        }
        i += 1;
    }
    proof {
        assert(i * m <= 8 * m) by (nonlinear_arith)
            requires
                i <= 8,
        ;
        if exact {
            board@.lemma_not_full_open();
            lemma_best_child(*board, depth as nat, 0);
            assert(v == best_child(*board, depth as nat, 0));
            let c = choose|c: int|
                0 <= c < 7 && #[trigger] board@.column_open(c) && child_value(*board, depth as nat, c)
                    == best_child(*board, depth as nat, 0);
            if !cutoff {
                let w = choose|w: int| 0 <= w < order.len() && order@[w] == c as usize;
                assert(child_value(*board, depth as nat, order[w] as int) <= best_score);
            } else {
                let k = choose|k: int|
                    0 <= k < i && child_value(*board, depth as nat, #[trigger] order[k] as int)
                        >= best_score;
                assert(board@.column_open(order[k] as int));
            }
        }
    }

    // Store in the table (skipped once timed out).
    if !state.timed_out {
        let flag = if best_score <= window_alpha {
            TTFlag::UpperBound
        } else if best_score >= beta {
            TTFlag::LowerBound
        } else {
            TTFlag::Exact
        };
        let entry = TTEntry { key, score: best_score, depth: depth as u8, flag, best_move: best_col };
        let ghost old_tt = state.tt;
        state.tt.store(entry);
        proof {
            if board@.settled() {
                old_tt.lemma_slot(key);
                assert(state.tt.entries@ == old_tt.entries@.update(old_tt.slot(key), entry));
                assert forall|j: int| 0 <= j < state.tt.entries.len() implies #[trigger] state.tt.entries[j]
                    == t0.entries[j] || key_of_later(state.tt.entries[j].key, board@.moves + 1) || (true
                    && state.tt.entries[j].key == key) by {
                    if j != old_tt.slot(key) {
                        assert(state.tt.entries@[j] == old_tt.entries@[j]);
                    }
                }
            }
            if exact {
                lemma_depth_byte(depth);
                assert forall|b: Bitboard|
                    b.wf() && b@.settled() && !finished(b@) && in_class(b@, cls) && b@.moves >= base && #[trigger] b.spec_key()
                        == entry.key implies exists|t: nat| #[trigger] sound_at(entry, b, t, horizon) by {
                    Bitboard::lemma_key_injective(*board, b);
                    assert(b@.to_move == board@.to_move);
                    assert(sound_at(entry, b, depth as nat, horizon));
                }
                old_tt.lemma_slot(key);
                lemma_sound_update(old_tt, state.tt, old_tt.slot(key), entry, horizon, cls, base);
            }
        }
    }
    best_score
}

/// The first open column in center-first order, or 3 when every column is full.
pub open spec fn fallback_column(v: BoardView) -> int {
    fallback_from(v, 0)
}

pub open spec fn fallback_from(v: BoardView, k: int) -> int
    decreases 7 - k,
{
    if k < 0 || k >= 7 {
        3
    } else if v.column_open(COLUMN_ORDER[k] as int) {
        COLUMN_ORDER[k] as int
    } else {
        fallback_from(v, k + 1)
    }
}

proof fn lemma_fallback(v: BoardView, k: int)
    requires
        0 <= k <= 7,
    ensures
        (exists|j: int| k <= j < 7 && #[trigger] v.column_open(COLUMN_ORDER[j] as int)) ==> v.column_open(
            fallback_from(v, k),
        ),
        !(exists|j: int| k <= j < 7 && #[trigger] v.column_open(COLUMN_ORDER[j] as int))
            ==> fallback_from(v, k) == 3,
    decreases 7 - k,
{
    if k < 7 {
        lemma_fallback(v, k + 1);
        if exists|j: int| k <= j < 7 && #[trigger] v.column_open(COLUMN_ORDER[j] as int) {
            let j = choose|j: int| k <= j < 7 && #[trigger] v.column_open(COLUMN_ORDER[j] as int);
            if j > k && !v.column_open(COLUMN_ORDER[k] as int) {
                assert(exists|j: int| k + 1 <= j < 7 && #[trigger] v.column_open(COLUMN_ORDER[j] as int));
            }
        }
    }
}

/// Every open column appears in the center-first order.
proof fn lemma_open_in_order(v: BoardView)
    ensures
        any_open(v, 0) == exists|j: int| 0 <= j < 7 && #[trigger] v.column_open(COLUMN_ORDER[j] as int),
{
    if any_open(v, 0) {
        let c = choose|c: int| 0 <= c < 7 && #[trigger] v.column_open(c);
        let j: int = if c == 3 {
            0
        } else if c == 2 {
            1
        } else if c == 4 {
            2
        } else if c == 1 {
            3
        } else if c == 5 {
            4
        } else if c == 0 {
            5
        } else {
            6
        };
        assert(v.column_open(COLUMN_ORDER[j] as int));
    }
}

/// The move that the table suggests for the position with `key`: the stored best
/// move, when the slot of `key` holds an entry for that key.
spec fn table_move(tt: TranspositionTable, key: u64) -> Option<usize> {
    let e = tt.entries[tt.slot(key)];
    if e.key == key {
        Some(e.best_move as usize)
    } else {
        None
    }
}

/// `order[j]` is the first move of `order` whose value at `depth` is the best child value.
pub open spec fn first_best_at(b: Bitboard, depth: nat, order: Seq<usize>, j: int) -> bool {
    &&& 0 <= j < order.len()
    &&& child_value(b, depth, order[j] as int) == best_child(b, depth, 0)
    &&& forall|k: int|
        0 <= k < j ==> #[trigger] child_value(b, depth, order[k] as int) < best_child(b, depth, 0)
}

/// The column a root search of `depth` plies picks when the table suggests `tt_move`:
/// the first move of greatest value in the search order (3 when no column is open).
pub open spec fn root_choice(b: Bitboard, depth: nat, tt_move: Option<usize>) -> int {
    let order = move_order(b@, tt_move);
    if exists|j: int| first_best_at(b, depth, order, j) {
        order[choose|j: int| first_best_at(b, depth, order, j)] as int
    } else {
        3
    }
}

/// The move a fresh table suggests: its blank entries all hold key 0 and move 0,
/// and only the empty board has key 0.
pub open spec fn fresh_table_move(b: Bitboard) -> Option<usize> {
    if b@.moves == 0 {
        Some(0usize)
    } else {
        None
    }
}

/// The column iterative deepening has chosen once the search of `depth` plies is
/// complete: each depth tries the previous depth's choice first.
pub open spec fn deepening_choice(b: Bitboard, depth: nat) -> int
    decreases depth,
{
    if depth <= 1 {
        root_choice(b, 1, fresh_table_move(b))
    } else {
        root_choice(b, depth, Some(deepening_choice(b, (depth - 1) as nat) as usize))
    }
}

/// The depth at which iterative deepening from `depth` stops when the clock never
/// interrupts it: at `max_depth`, or at the first depth whose best value is a win
/// on the next move.
pub open spec fn stop_depth(b: Bitboard, depth: nat, max_depth: nat) -> nat
    decreases max_depth - depth,
{
    if depth >= max_depth || best_child(b, depth, 0) >= WIN_SCORE - (b@.moves as int + 1) / 2 {
        depth
    } else {
        stop_depth(b, depth + 1, max_depth)
    }
}

/// Search all root moves at a fixed depth. Returns `None` if the search timed out.
///
/// The root is searched with a full window, so the column returned is the first
/// move of greatest value in the search order (the table's move first, then
/// center-first), and the table then holds an exact entry for the root.
fn search_at_depth(
    board: &Bitboard,
    depth: u32,
    state: &mut SearchState,
    Ghost(cls): Ghost<bool>,
    Ghost(base): Ghost<nat>,
    Ghost(exact): Ghost<bool>,
) -> (r: Option<SearchResult>)
    requires
        depth >= 1,
        !old(state).timed_out,
        old(state).tt.well_formed(),
        old(state).counted(),
        exact ==> {
            &&& board@.settled()
            &&& in_class(board@, cls)
            &&& base <= board@.moves
            &&& old(state).tt.sound(depth + board@.moves, cls, base)
        },
    ensures
        final(state).tt.well_formed(),
        final(state).counted(),
        final(state).deadline == old(state).deadline,
        old(state).visited@ <= final(state).visited@ <= old(state).visited@ + 8 * max_nodes(
            (depth - 1) as nat,
        ),
        r is Some <==> !final(state).timed_out,
        final(state).timed_out ==> old(state).deadline is Some && check_between(
            old(state).visited@ as int,
            final(state).visited@ as int,
        ),
        old(state).deadline is None ==> r is Some,
        final(state).timed_out ==> final(state).node_count % 1024 == 0,
        !check_between(
            old(state).visited@ as int,
            (old(state).visited@ + 8 * max_nodes((depth - 1) as nat)) as int,
        ) ==> r is Some,
        r matches Some(res) ==> {
            &&& res.best_col < 7
            &&& res.best_score >= floor_score()
            &&& !any_open(board@, 0) ==> res.best_col == 3
            &&& final(state).tt.entries[final(state).tt.slot(board.spec_key())] == (TTEntry {
                key: board.spec_key(),
                score: res.best_score,
                depth: depth as u8,
                flag: TTFlag::Exact,
                best_move: res.best_col as u8,
            })
        },
        exact ==> final(state).tt.sound(depth + board@.moves, cls, base),
        exact && depth + board@.moves - base <= 255 ==> final(state).tt.sound_exact(
            depth + board@.moves,
            cls,
            base,
        ),
        exact ==> (r matches Some(res) ==> {
            &&& res.best_score == best_child(*board, depth as nat, 0)
            &&& res.best_col == root_choice(
                *board,
                depth as nat,
                table_move(old(state).tt, board.spec_key()),
            )
            &&& any_open(board@, 0) ==> optimal_at(*board, depth as nat, res.best_col as int)
        }),
{
    broadcast use lemma_sound_exact;

    proof {
        use_type_invariant(board);
        board.lemma_full();
    }
    let ghost horizon = depth + board@.moves;
    let ghost v0 = state.visited@;
    let ghost d0 = state.deadline;
    let ghost m = max_nodes((depth - 1) as nat);
    let mut best_col = COLUMN_ORDER[0];
    let mut best_score = i32::MIN + 1;
    let ghost mut bj: int = 0;

    // Root move order: table's best move first, then the remaining columns.
    let key = board.key();
    let tt_best_move = match state.tt.probe(key) {
        Some(e) => Some(e.best_move as usize),
        None => None,
    };
    proof {
        assert(tt_best_move == table_move(state.tt, key));
    }
    let order = ordered_moves(board, tt_best_move);

    let mut alpha = i32::MIN + 1;
    let mut i: usize = 0;
    while i < order.len()
        invariant
            i <= order.len(),
            order.len() <= 8,
            order@ == move_order(board@, tt_best_move),
            forall|k: int| 0 <= k < order.len() ==> board@.column_open(#[trigger] order[k] as int),
            forall|c: int| #[trigger] board@.column_open(c) ==> order@.contains(c as usize),
            alpha == best_score,
            best_score >= floor_score(),
            best_col < 7,
            i == 0 ==> best_col == 3 && best_score == floor_score(),
            depth >= 1,
            !state.timed_out,
            state.tt.well_formed(),
            state.counted(),
            state.deadline == d0,
            d0 == old(state).deadline,
            v0 == old(state).visited@,
            m == max_nodes((depth - 1) as nat),
            v0 <= state.visited@ <= v0 + i * m,
            horizon == depth + board@.moves,
            exact ==> {
                &&& board@.settled()
                &&& in_class(board@, cls)
            &&& base <= board@.moves
                &&& state.tt.sound(horizon, cls, base)
                &&& best_score <= WIN_SCORE
                &&& i > 0 ==> board@.column_open(best_col as int)
                &&& forall|k: int|
                    0 <= k < i ==> child_value(*board, depth as nat, #[trigger] order[k] as int)
                        <= best_score
                &&& i > 0 ==> child_value(*board, depth as nat, best_col as int) == best_score
                &&& i > 0 ==> 0 <= bj < i && order[bj] == best_col
                &&& forall|k: int|
                    0 <= k < bj ==> child_value(*board, depth as nat, #[trigger] order[k] as int)
                        < best_score
            },
        decreases order.len() - i,
    {
        let col = order[i];
        let mut child = *board;
        child.play(col).expect("checked can_play");
        proof {
            use_type_invariant(board);
            if exact {
                board@.lemma_drop_settled(col as int);
                board.lemma_spec_play(col as int);
                lemma_value_bounds(child, (depth - 1) as nat);
            }
        }
        let ghost vb = state.visited@;
        let child_score = negamax(&child, depth - 1, -(i32::MAX - 1), -alpha, state, Ghost(cls), Ghost(base), Ghost(exact));
        let score = -child_score;
        proof {
            assert(v0 + i * m + m == v0 + (i + 1) * m) by (nonlinear_arith);
        }
        if state.timed_out {
            proof {
                let k = choose|k: int| vb < k <= state.visited@ && #[trigger] clock_check_at(k);
                assert(v0 < k);
                assert((i + 1) * m <= 8 * m) by (nonlinear_arith)
                    requires
                        i + 1 <= 8,
                ;
            }
            return None;
        }
        if score > best_score {
            best_score = score;
            best_col = col;
            proof {
                bj = i as int;
            }
        }
        if score > alpha {
            alpha = score;
        }
        proof {
            if exact {
                assert(child_value(*board, depth as nat, col as int) == -value(child, (depth - 1) as nat));
                assert(order[i as int] == col);
            }
        }
        i += 1;
    }
    proof {
        assert(i * m <= 8 * m) by (nonlinear_arith)
            requires
                i <= 8,
        ;
        lemma_best_child(*board, depth as nat, 0);
        if order.len() > 0 {
            assert(board@.column_open(order[0] as int));
        }
        if i == 0 {
            assert(!any_open(board@, 0)) by {
                if any_open(board@, 0) {
                    let c = choose|c: int| 0 <= c < 7 && #[trigger] board@.column_open(c);
                    assert(order@.contains(c as usize));
                }
            }
        }
        if exact {
            let bc = best_child(*board, depth as nat, 0);
            if any_open(board@, 0) {
                assert forall|c: int| #[trigger] board@.column_open(c) implies child_value(
                    *board,
                    depth as nat,
                    c,
                ) <= best_score by {
                    let w = choose|w: int| 0 <= w < order.len() && order@[w] == c as usize;
                    assert(child_value(*board, depth as nat, order[w] as int) <= best_score);
                }
                let c0 = choose|c: int| 0 <= c < 7 && #[trigger] board@.column_open(c);
                assert(order@.contains(c0 as usize));
                lemma_best_child_is(*board, depth as nat, best_score as int, best_col as int);
                assert(first_best_at(*board, depth as nat, order@, bj));
                let j2 = choose|j: int| first_best_at(*board, depth as nat, order@, j);
                if j2 < bj {
                    assert(child_value(*board, depth as nat, order[j2] as int) < best_score);
                } else if j2 > bj {
                    assert(child_value(*board, depth as nat, order[bj] as int) < bc);
                }
                assert(j2 == bj);
            } else {
                assert(bc == floor_score());
                assert(order.len() == 0) by {
                    if order.len() > 0 {
                        assert(board@.column_open(order[0] as int));
                    }
                }
            }
        }
    }

    // Store the root result as exact (full window search).
    let entry = TTEntry {
        key,
        score: best_score,
        depth: depth as u8,
        flag: TTFlag::Exact,
        best_move: best_col as u8,
    };
    let ghost old_tt = state.tt;
    state.tt.store(entry);
    proof {
        old_tt.lemma_slot(key);
        if exact {
            lemma_depth_byte(depth);
            assert forall|b: Bitboard|
                b.wf() && b@.settled() && !finished(b@) && in_class(b@, cls) && b@.moves >= base && #[trigger] b.spec_key()
                    == entry.key implies exists|t: nat| #[trigger] sound_at(entry, b, t, horizon) by {
                Bitboard::lemma_key_injective(*board, b);
                assert(b@.to_move == board@.to_move);
                assert(sound_at(entry, b, depth as nat, horizon));
            }
            lemma_sound_update(old_tt, state.tt, old_tt.slot(key), entry, horizon, cls, base);
        }
    }
    Some(SearchResult { best_col, best_score })
}

/// Iterative deepening never stops before the depth it has reached.
proof fn lemma_stop_depth_at_least(b: Bitboard, depth: nat, max_depth: nat)
    ensures
        stop_depth(b, depth, max_depth) >= depth,
    decreases max_depth - depth,
{
    if depth < max_depth && best_child(b, depth, 0) < WIN_SCORE - (b@.moves as int + 1) / 2 {
        lemma_stop_depth_at_least(b, depth + 1, max_depth);
    }
}

/// What a move optimal at a depth of at least one ply does: it takes an immediate
/// win when there is one, and from two plies on it blocks a threat that can be blocked.
proof fn lemma_deepening_laws(b: Bitboard, depth: nat, col: int)
    requires
        b.wf(),
        b@.settled(),
        depth >= 1,
        any_open(b@, 0) ==> optimal_at(b, depth, col),
    ensures
        (exists|c: int| #[trigger] b@.column_open(c) && lost(b@.drop_piece(c))) ==> lost(b@.drop_piece(col)),
        depth >= 2 && (exists|c: int| #[trigger] b@.column_open(c) && wins_or_holds(b@, c)) ==> wins_or_holds(
            b@,
            col,
        ),
{
    if exists|c: int| #[trigger] b@.column_open(c) && lost(b@.drop_piece(c)) {
        let c = choose|c: int| #[trigger] b@.column_open(c) && lost(b@.drop_piece(c));
        assert(any_open(b@, 0));
        lemma_optimal_takes_win(b, depth, col, c);
    }
    if depth >= 2 && (exists|c: int| #[trigger] b@.column_open(c) && wins_or_holds(b@, c)) {
        let c = choose|c: int| #[trigger] b@.column_open(c) && wins_or_holds(b@, c);
        assert(any_open(b@, 0));
        lemma_optimal_blocks(b, depth, col, c);
    }
}

/// Find the best column to play for the current position.
///
/// Uses iterative deepening from depth 1 up to `max_depth`, stopping early
/// if the timeout is reached or a forced win is found. Returns the best move
/// of the deepest fully completed search, or, when `max_depth` is 0, the first
/// playable column in center-first order (3 when every column is full).
///
/// A timeout too large for the clock to represent means no time limit.
pub fn best_move(board: &Bitboard, max_depth: u32, timeout: Duration) -> (col: usize)
    ensures
        col < 7,
        !any_open(board@, 0) ==> col == 3,
        max_depth == 0 ==> col == fallback_column(board@),
        board@.settled() && max_depth >= 1 ==> exists|d: nat|
            1 <= d <= max_depth && col == #[trigger] deepening_choice(*board, d) && (any_open(board@, 0)
                ==> optimal_at(*board, d, col as int)) && d <= stop_depth(*board, 1, max_depth as nat) && (d
                < stop_depth(*board, 1, max_depth as nat) ==> d >= 3 && search_nodes(d + 1) >= 1024),
        board@.settled() && max_depth >= 1 && (exists|c: int|
            #[trigger] board@.column_open(c) && lost(board@.drop_piece(c))) ==> lost(
            board@.drop_piece(col as int),
        ),
{
    let start = clock_now();
    let deadline = instant_after(start, timeout);
    best_move_until(board, max_depth, deadline)
}

/// `best_move` against a deadline (`None`: no deadline). The clock is read only
/// when the node count reaches a multiple of 1024, and the search of depth 1
/// visits fewer nodes than that, so it always completes. With no deadline the
/// result is the choice of the search at which iterative deepening stops.
pub fn best_move_until(board: &Bitboard, max_depth: u32, deadline: Option<Instant>) -> (col: usize)
    ensures
        col < 7,
        !any_open(board@, 0) ==> col == 3,
        max_depth == 0 ==> col == fallback_column(board@),
        board@.settled() && max_depth >= 1 ==> exists|d: nat|
            1 <= d <= max_depth && col == #[trigger] deepening_choice(*board, d) && (any_open(board@, 0)
                ==> optimal_at(*board, d, col as int)) && d <= stop_depth(*board, 1, max_depth as nat) && (d
                < stop_depth(*board, 1, max_depth as nat) ==> d >= 3 && search_nodes(d + 1) >= 1024),
        board@.settled() && max_depth >= 1 && deadline is None ==> col == deepening_choice(
            *board,
            stop_depth(*board, 1, max_depth as nat),
        ) && (any_open(board@, 0) ==> optimal_at(
            *board,
            stop_depth(*board, 1, max_depth as nat),
            col as int,
        )),
        board@.settled() && deadline is None && stop_depth(*board, 1, max_depth as nat) >= 2 && (exists|c: int|
            #[trigger] board@.column_open(c) && wins_or_holds(board@, c)) ==> wins_or_holds(
            board@,
            col as int,
        ),
        board@.settled() && max_depth >= 1 && (exists|c: int|
            #[trigger] board@.column_open(c) && lost(board@.drop_piece(c))) ==> lost(
            board@.drop_piece(col as int),
        ),
{
    let r = iterative_deepening(board, max_depth, deadline);
    proof {
        if board@.settled() && max_depth >= 1 {
            assert(r.best_col == deepening_choice(*board, r.depth as nat));
        }
    }
    r.best_col
}

/// The outcome of iterative deepening.
pub struct Deepening {
    /// The column chosen.
    pub best_col: usize,
    /// The deepest search that completed (0 when none was run).
    pub depth: u32,
    /// Whether the clock stopped the search of the next depth.
    pub timed_out: bool,
    /// The nodes visited, counted modulo 2^64.
    pub nodes: u64,
}

/// Iterative deepening from depth 1 up to `max_depth` against a deadline (`None`:
/// no deadline). It stops after `max_depth`, after a depth whose best value is a
/// win on the next move, or when a clock check finds the deadline passed; the
/// search that the clock stopped is discarded and the deepest completed search
/// decides. The clock is read only when the node count reaches a multiple of
/// 1024, so the search of depth 1, with fewer nodes than that, always completes.
pub fn iterative_deepening(board: &Bitboard, max_depth: u32, deadline: Option<Instant>) -> (r: Deepening)
    ensures
        r.best_col < 7,
        !any_open(board@, 0) ==> r.best_col == 3,
        r.depth <= max_depth,
        (r.depth == 0) == (max_depth == 0),
        r.depth == 0 ==> r.best_col == fallback_column(board@) && r.nodes == 0 && !r.timed_out,
        deadline is None ==> !r.timed_out,
        r.timed_out ==> deadline is Some && r.nodes % 1024 == 0 && r.depth < max_depth,
        r.timed_out ==> r.depth >= 3 && search_nodes((r.depth + 1) as nat) >= 1024,
        board@.settled() && r.depth >= 1 ==> r.best_col == deepening_choice(*board, r.depth as nat) && (
        any_open(board@, 0) ==> optimal_at(*board, r.depth as nat, r.best_col as int)),
        board@.settled() && max_depth >= 1 && !r.timed_out ==> r.depth == stop_depth(
            *board,
            1,
            max_depth as nat,
        ),
        board@.settled() && r.timed_out ==> r.depth < stop_depth(*board, 1, max_depth as nat),
        board@.settled() && r.depth >= 2 && (exists|c: int|
            #[trigger] board@.column_open(c) && wins_or_holds(board@, c)) ==> wins_or_holds(
            board@,
            r.best_col as int,
        ),
        board@.settled() && max_depth >= 1 && (exists|c: int|
            #[trigger] board@.column_open(c) && lost(board@.drop_piece(c))) ==> lost(
            board@.drop_piece(r.best_col as int),
        ),
{
    proof {
        use_type_invariant(board);
        board.lemma_full();
        lemma_fallback(board@, 0);
        lemma_open_in_order(board@);
    }
    assert(TT_SIZE >= 1) by (bit_vector);
    let mut state = SearchState {
        deadline,
        node_count: 0,
        timed_out: false,
        tt: TranspositionTable::new(TT_SIZE),
        visited: Ghost(0),
    };

    // Fallback: first playable column in center-first order.
    let mut fallback: usize = 3;
    let mut k: usize = 0;
    let mut found = false;
    while k < WIDTH && !found
        invariant
            k <= WIDTH,
            found ==> fallback == fallback_column(board@),
            !found ==> fallback_from(board@, k as int) == fallback_column(board@),
            !found ==> fallback == 3,
        decreases WIDTH - k,
    {
        let c = COLUMN_ORDER[k];
        if board.can_play(c) {
            fallback = c;
            found = true;
        }
        k += 1;
    }
    let mut best = SearchResult { best_col: fallback, best_score: i32::MIN + 1 };

    let ghost cls = (board@.to_move == Player::Red) == (board@.moves % 2 == 0);
    let ghost exact = board@.settled();
    let ghost base: nat = board@.moves;
    let ghost key = board.spec_key();
    let ghost mut last: nat = 0;
    proof {
        state.tt.lemma_slot(key);
        board.lemma_key_zero();
        assert(table_move(state.tt, key) == fresh_table_move(*board));
        if exact {
            assert forall|j: int| 0 <= j < state.tt.entries.len() implies entry_sound(
                #[trigger] state.tt.entries[j],
                1 + board@.moves as int,
                cls,
                base,
            ) by {}
        }
    }
    let mut depth: u64 = 1;
    let mut done = false;
    while depth <= max_depth as u64 && !done
        invariant
            1 <= depth <= max_depth as u64 + 1,
            !state.timed_out,
            state.tt.well_formed(),
            state.counted(),
            state.deadline == deadline,
            depth == 1 && !done ==> state.visited@ == 0,
            !done ==> state.visited@ <= search_nodes((depth - 1) as nat),
            key == board.spec_key(),
            best.best_col < 7,
            !any_open(board@, 0) ==> best.best_col == 3,
            fallback == fallback_column(board@),
            fallback < 7,
            any_open(board@, 0) ==> board@.column_open(fallback as int),
            !any_open(board@, 0) ==> fallback == 3,
            board@.moves <= 42,
            cls == ((board@.to_move == Player::Red) == (board@.moves % 2 == 0)),
            exact == board@.settled(),
            base == board@.moves,
            exact ==> state.tt.sound(depth + board@.moves, cls, base),
            !done ==> last == depth - 1,
            done ==> last == depth && 1 <= depth <= max_depth,
            last == 0 ==> best.best_col == fallback,
            exact && last == 0 ==> table_move(state.tt, key) == fresh_table_move(*board),
            exact && last >= 1 ==> {
                &&& best.best_col == deepening_choice(*board, last)
                &&& (any_open(board@, 0) ==> optimal_at(*board, last, best.best_col as int))
                &&& table_move(state.tt, key) == Some(best.best_col)
                &&& (!done ==> best_child(*board, last, 0) < WIN_SCORE - (board@.moves as int + 1) / 2)
                &&& (done ==> best_child(*board, last, 0) >= WIN_SCORE - (board@.moves as int + 1) / 2)
                &&& stop_depth(*board, 1, max_depth as nat) == stop_depth(*board, last, max_depth as nat)
            },
        decreases max_depth as u64 + 1 - depth, if done { 0int } else { 1int },
    {
        proof {
            if depth == 1 {
                assert(!check_between(0, 8));
                assert(max_nodes(0) == 1);
            }
        }
        let ghost vb = state.visited@;
        match search_at_depth(board, depth as u32, &mut state, Ghost(cls), Ghost(base), Ghost(exact)) {
            Some(result) => {
                proof {
                    if exact {
                        assert(result.best_col as int == deepening_choice(*board, depth as nat));
                        if depth > 1 {
                            assert(stop_depth(*board, (depth - 1) as nat, max_depth as nat) == stop_depth(
                                *board,
                                depth as nat,
                                max_depth as nat,
                            ));
                        }
                    }
                    last = depth as nat;
                }
                best = result;
                // Early exit if we found a forced win.
                if best.best_score >= WIN_SCORE - (board.move_count() as i32 + 1) / 2 {
                    done = true;
                }
            },
            None => {
                proof {
                    use_type_invariant(board);
                    lemma_shallow_searches_complete();
                    let k = choose|k: int| vb < k <= state.visited@ && #[trigger] clock_check_at(k);
                    assert(search_nodes(depth as nat) == search_nodes((depth - 1) as nat) + 8 * max_nodes(
                        (depth - 1) as nat,
                    ));
                    assert(search_nodes(depth as nat) >= 1024);
                    assert(depth > 3);
                    if exact {
                        lemma_stop_depth_at_least(*board, depth as nat, max_depth as nat);
                        assert(stop_depth(*board, last, max_depth as nat) == stop_depth(
                            *board,
                            depth as nat,
                            max_depth as nat,
                        ));
                        lemma_deepening_laws(*board, last, best.best_col as int);
                    }
                }
                return Deepening {
                    best_col: best.best_col,
                    depth: (depth - 1) as u32,
                    timed_out: true,
                    nodes: state.node_count,
                };
            },
        }
        proof {
            if exact {
                lemma_sound_widen(state.tt, depth + board@.moves, cls, base);
            }
        }
        if !done {
            depth += 1;
        }
    }
    proof {
        use_type_invariant(board);
        if exact && max_depth >= 1 {
            assert(last >= 1);
            assert(stop_depth(*board, last, max_depth as nat) == last);
            lemma_deepening_laws(*board, last, best.best_col as int);
        }
    }
    let completed: u32 = if done {
        depth as u32
    } else {
        (depth - 1) as u32
    };
    Deepening { best_col: best.best_col, depth: completed, timed_out: false, nodes: state.node_count }
}
} // verus!
