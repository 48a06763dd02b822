use vstd::prelude::*;

use crate::bits::{
    bit, count_bits, has_four, is_direction, lemma_and_single, lemma_bit_or_single, lemma_bit_subset,
    lemma_bit_xor, lemma_bit_zero, lemma_bits_equal, lemma_board_bit_iff, lemma_carry, lemma_cells_below,
    lemma_count_board, lemma_count_insert, lemma_count_subset, lemma_count_zero, lemma_has_four,
    lemma_key_injective_bits, lemma_nonzero_has_bit, lemma_or_single_subset, lemma_or_subset, lemma_single_on_board,
    lemma_subset_trans, lemma_xor_subset, line_of_four, occupied, on_board, popcount, cells_below,
    BOARD_MASK,
};
use crate::text::{
    board_rows, chars_of, decoration, find_newline, is_board_text, lemma_board_rows_cons,
    lemma_lines_split, lines_of, row_cells, text_cell,
};

verus! {

/// Number of columns on the board.
pub const WIDTH: usize = 7;
/// Number of rows on the board.
pub const HEIGHT: usize = 6;

/// Players in a Connect Four game.
#[derive(Debug, Clone, Copy, PartialEq, Eq, Hash, Structural)]
pub enum Player {
    Red,
    Yellow,
}

impl Player {
    /// The other player.
    pub open spec fn opponent(self) -> Player {
        match self {
            Player::Red => Player::Yellow,
            Player::Yellow => Player::Red,
        }
    }

    /// Returns the other player.
    pub fn other(self) -> (r: Player)
        ensures
            r == self.opponent(),
            r != self,
            r.opponent() == self,
    {
        match self {
            Player::Red => Player::Yellow,
            Player::Yellow => Player::Red,
        }
    }
}

/// Errors that can occur when attempting a move.
#[derive(Debug, Clone, PartialEq, Eq, Structural)]
pub enum MoveError {
    ColumnFull,
    OutOfRange,
}

// ---------------------------------------------------------------------------
// The board
// ---------------------------------------------------------------------------

/// Bitboard representation of a Connect Four board.
///
/// Column-major layout with 7 bits per column (6 playable rows and 1 sentinel).
/// - `position`: the pieces of the player to move
/// - `mask`: all pieces on the board
/// - the opponent's pieces are `position ^ mask`
#[derive(Debug, Clone, Copy, PartialEq, Eq, Hash, Structural)]
pub struct Bitboard {
    pub(crate) position: u64,
    pub(crate) mask: u64,
    pub(crate) current: Player,
    pub(crate) moves: u32,
}

/// What a board holds: the pieces by (column, row), row 0 being the bottom,
/// the player to move and the number of moves played.
pub struct BoardView {
    pub pieces: Map<(int, int), Player>,
    pub to_move: Player,
    pub moves: nat,
}

impl BoardView {
    /// `player` has a piece at (col, row).
    pub open spec fn owns(self, player: Player, col: int, row: int) -> bool {
        self.pieces.contains_key((col, row)) && self.pieces[(col, row)] == player
    }

    /// `player` owns four cells in a line starting at (col, row) with step (dc, dr).
    pub open spec fn four_at(self, player: Player, col: int, row: int, dc: int, dr: int) -> bool {
        &&& self.owns(player, col, row)
        &&& self.owns(player, col + dc, row + dr)
        &&& self.owns(player, col + 2 * dc, row + 2 * dr)
        &&& self.owns(player, col + 3 * dc, row + 3 * dr)
    }

    /// `player` has four in a row: horizontally, vertically or diagonally.
    pub open spec fn four_in_a_row(self, player: Player) -> bool {
        exists|col: int, row: int, dc: int, dr: int|
            is_direction(dc, dr) && #[trigger] self.four_at(player, col, row, dc, dr)
    }

    /// Every cell of the board holds a piece.
    pub open spec fn is_full(self) -> bool {
        forall|col: int, row: int| on_board(col, row) ==> self.pieces.contains_key((col, row))
    }

    /// No piece floats: every piece above the bottom row rests on another piece.
    pub open spec fn settled(self) -> bool {
        forall|col: int, row: int|
            on_board(col, row) && row > 0 && #[trigger] self.pieces.contains_key((col, row))
                ==> self.pieces.contains_key((col, row - 1))
    }

    /// The lowest empty row of a column at or above `row` (5 when rows `row..5` are full).
    pub open spec fn landing_from(self, col: int, row: int) -> int
        decreases 6 - row,
    {
        if row >= 5 || !self.pieces.contains_key((col, row)) {
            row
        } else {
            self.landing_from(col, row + 1)
        }
    }

    /// The row in which a piece dropped into `col` comes to rest.
    pub open spec fn landing_row(self, col: int) -> int {
        self.landing_from(col, 0)
    }

    /// A piece can be dropped into `col`: the column exists and its top cell is empty.
    pub open spec fn column_open(self, col: int) -> bool {
        0 <= col < 7 && !self.pieces.contains_key((col, 5))
    }

    /// The board after the player to move drops a piece into `col`.
    pub open spec fn drop_piece(self, col: int) -> BoardView {
        BoardView {
            pieces: self.pieces.insert((col, self.landing_row(col)), self.to_move),
            to_move: self.to_move.opponent(),
            moves: self.moves + 1,
        }
    }

    /// After a piece is dropped into an open column, its landing cell holds the
    /// mover's piece, that cell was empty before, the cells below it are occupied,
    /// and every other cell is as it was.
    pub proof fn lemma_drop_piece_reads(self, col: int)
        requires
            self.column_open(col),
        ensures
            0 <= self.landing_row(col) <= 5,
            !self.pieces.contains_key((col, self.landing_row(col))),
            forall|r: int| 0 <= r < self.landing_row(col) ==> self.pieces.contains_key((col, r)),
            self.drop_piece(col).owns(self.to_move, col, self.landing_row(col)),
            forall|c: int, r: int|
                (c, r) != (col, self.landing_row(col)) ==> (#[trigger] self.drop_piece(col).pieces.contains_key(
                    (c, r),
                ) == self.pieces.contains_key((c, r)) && (self.pieces.contains_key((c, r))
                    ==> self.drop_piece(col).pieces[(c, r)] == self.pieces[(c, r)])),
    {
        lemma_landing(self, col, 0);
    }

    /// Dropping a piece keeps a board without floating pieces so.
    pub proof fn lemma_drop_settled(self, col: int)
        requires
            self.settled(),
            self.column_open(col),
        ensures
            self.drop_piece(col).settled(),
    {
        lemma_landing(self, col, 0);
    }

    /// On a board without floating pieces, an empty cell leaves its column open.
    pub proof fn lemma_empty_cell_open(self, col: int, row: int)
        requires
            self.settled(),
            on_board(col, row),
            !self.pieces.contains_key((col, row)),
        ensures
            self.column_open(col),
        decreases 6 - row,
    {
        if row < 5 {
            self.lemma_empty_cell_open(col, row + 1);
        }
    }

    /// A board without floating pieces that is not full has an open column.
    pub proof fn lemma_not_full_open(self)
        requires
            self.settled(),
            !self.is_full(),
        ensures
            exists|col: int| #[trigger] self.column_open(col),
    {
        let (c, r) = choose|col: int, row: int| on_board(col, row) && !self.pieces.contains_key((col, row));
        self.lemma_empty_cell_open(c, r);
    }
}

impl Default for Bitboard {
    fn default() -> (b: Self)
        ensures
            b@.pieces == Map::<(int, int), Player>::empty(),
            b@.to_move == Player::Red,
            b@.moves == 0,
    {
        Self::new()
    }
}

impl View for Bitboard {
    type V = BoardView;

    closed spec fn view(&self) -> BoardView {
        BoardView { pieces: self.pieces(), to_move: self.current, moves: self.moves as nat }
    }
}

impl Bitboard {
    /// The internal consistency of the two masks and the move counter.
    #[verifier::type_invariant]
    pub closed spec fn wf(self) -> bool {
        &&& self.mask & !BOARD_MASK == 0
        &&& self.position & !self.mask == 0
        &&& self.moves == popcount(self.mask)
    }

    /// The pieces on the board, read from the masks.
    spec fn pieces(self) -> Map<(int, int), Player> {
        Map::new(
            |k: (int, int)| occupied(self.mask, k.0, k.1),
            |k: (int, int)|
                if bit(self.position, k.0 * 7 + k.1) {
                    self.current
                } else {
                    self.current.opponent()
                },
        )
    }

    /// The pieces of `player` as a bitmask.
    spec fn pieces_of(self, player: Player) -> u64 {
        if player == self.current {
            self.position
        } else {
            self.position ^ self.mask
        }
    }

    /// Checks whether a set of pieces holds four in a row in any direction.
    fn has_alignment(pos: u64) -> (r: bool)
        requires
            pos & !BOARD_MASK == 0,
        ensures
            r == has_four(pos),
    {
        proof {
            lemma_has_four(pos);
        }
        // Horizontal (shift by HEIGHT + 1 = 7)
        let m = pos & (pos >> (HEIGHT + 1));
        if (m & (m >> (2 * (HEIGHT + 1)))) != 0 {
            return true;
        }
        // Vertical (shift by 1)
        let m = pos & (pos >> 1usize);
        if (m & (m >> 2usize)) != 0 {
            return true;
        }
        // Diagonal \ (shift by HEIGHT = 6)
        let m = pos & (pos >> HEIGHT);
        if (m & (m >> (2 * HEIGHT))) != 0 {
            return true;
        }
        // Diagonal / (shift by HEIGHT + 2 = 8)
        let m = pos & (pos >> (HEIGHT + 2));
        if (m & (m >> (2 * (HEIGHT + 2)))) != 0 {
            return true;
        }
        false
    }

    /// Creates a new empty board with Red to move first.
    pub fn new() -> (b: Self)
        ensures
            b@.pieces == Map::<(int, int), Player>::empty(),
            b@.to_move == Player::Red,
            b@.moves == 0,
    {
        proof {
            assert(0u64 & !BOARD_MASK == 0) by (bit_vector);
            assert(0u64 & !0u64 == 0) by (bit_vector);
            assert forall|n: nat| n <= 64 implies count_bits(0, n) == 0 by {
                lemma_count_zero(n);
            }
        }
        let b = Bitboard { position: 0, mask: 0, current: Player::Red, moves: 0 };
        proof {
            assert forall|k: (int, int)| !b@.pieces.contains_key(k) by {
                lemma_bit_zero(k.0 * 7 + k.1);
            }
            assert(b@.pieces =~= Map::<(int, int), Player>::empty());
        }
        b
    }

    /// Returns the player whose turn it is.
    pub fn current_player(&self) -> (p: Player)
        ensures
            p == self@.to_move,
    {
        self.current
    }

    /// Returns the number of moves played so far.
    pub fn move_count(&self) -> (n: u32)
        ensures
            n == self@.moves,
    {
        self.moves
    }

    /// Returns the current player's piece bitmask.
    pub fn position_mask(&self) -> (m: u64)
        ensures
            m & !BOARD_MASK == 0,
            forall|col: int, row: int|
                on_board(col, row) ==> bit(m, col * 7 + row) == self@.owns(self@.to_move, col, row),
    {
        proof {
            use_type_invariant(self);
            lemma_subset_trans(self.position, self.mask, BOARD_MASK);
            assert forall|col: int, row: int| on_board(col, row) implies bit(self.position, col * 7 + row)
                == self@.owns(self@.to_move, col, row) by {
                if bit(self.position, col * 7 + row) {
                    lemma_bit_subset(self.position, self.mask, col * 7 + row);
                }
            }
        }
        self.position
    }

    /// Returns the bitmask of all pieces on the board.
    pub fn all_mask(&self) -> (m: u64)
        ensures
            m & !BOARD_MASK == 0,
            forall|col: int, row: int|
                on_board(col, row) ==> bit(m, col * 7 + row) == self@.pieces.contains_key((col, row)),
    {
        proof {
            use_type_invariant(self);
        }
        self.mask
    }

    /// Returns whether a move can be played in the given column.
    pub fn can_play(&self, col: usize) -> (r: bool)
        ensures
            r == self@.column_open(col as int),
    {
        if col >= WIDTH {
            return false;
        }
        // Check if the top cell of the column is empty.
        let t = top_mask(col);
        proof {
            lemma_and_single(self.mask, col as int * 7 + 5);
        }
        (self.mask & t) == 0
    }

    /// Plays a piece in the given column.
    ///
    /// After `play()`, `position` holds the *new* current player's perspective,
    /// so to check whether the *previous* player just won, use `is_winning()`.
    pub fn play(&mut self, col: usize) -> (r: Result<(), MoveError>)
        ensures
            col >= WIDTH ==> r == Err::<(), MoveError>(MoveError::OutOfRange) && *final(self) == *old(
                self,
            ),
            col < WIDTH && !old(self)@.column_open(col as int) ==> r == Err::<(), MoveError>(
                MoveError::ColumnFull,
            ) && *final(self) == *old(self),
            old(self)@.column_open(col as int) ==> r is Ok && final(self)@ == old(self)@.drop_piece(
                col as int,
            ) && *final(self) == old(self).spec_play(col as int),
    {
        if col >= WIDTH {
            return Err(MoveError::OutOfRange);
        }
        if !self.can_play(col) {
            return Err(MoveError::ColumnFull);
        }
        proof {
            use_type_invariant(&*self);
            self.lemma_spec_play(col as int);
            self.lemma_play_no_overflow(col as int);
        }
        // The lowest empty bit in this column: (mask + bottom) gives us the bit.
        let new_position = self.position ^ self.mask;
        let new_mask = self.mask | (self.mask + bottom_mask(col));
        *self = Bitboard {
            position: new_position,
            mask: new_mask,
            current: self.current.other(),
            moves: self.moves + 1,
        };
        Ok(())
    }

    /// The board after the player to move drops a piece into `col`.
    pub closed spec fn spec_play(self, col: int) -> Bitboard {
        Bitboard {
            position: self.position ^ self.mask,
            mask: self.mask | ((self.mask + (1u64 << (col * 7) as u64)) as u64),
            current: self.current.opponent(),
            moves: (self.moves + 1) as u32,
        }
    }

    proof fn lemma_play_no_overflow(self, col: int)
        requires
            self.wf(),
            self@.column_open(col),
        ensures
            self.mask + (1u64 << (col * 7) as u64) <= u64::MAX,
            self.moves + 1 <= u32::MAX,
    {
        lemma_landing(self@, col, 0);
        let h = self@.landing_row(col);
        assert forall|r: int| 0 <= r < h implies #[trigger] bit(self.mask, col * 7 + r) by {
            assert(self@.pieces.contains_key((col, r)));
        }
        lemma_carry(self.mask, (col * 7) as u64, h as u64);
        self.lemma_full();
    }

    /// Dropping a piece into an open column keeps the board consistent and
    /// does to its view what `drop_piece` says.
    pub proof fn lemma_spec_play(self, col: int)
        requires
            self.wf(),
            self@.column_open(col),
        ensures
            self.spec_play(col).wf(),
            self.spec_play(col)@ == self@.drop_piece(col),
    {
        let h = self@.landing_row(col);
        let j = col * 7 + h;
        lemma_landing(self@, col, 0);
        assert forall|r: int| 0 <= r < h implies #[trigger] bit(self.mask, col * 7 + r) by {
            assert(self@.pieces.contains_key((col, r)));
        }
        lemma_carry(self.mask, (col * 7) as u64, h as u64);
        let nb = self.spec_play(col);
        let new_position = nb.position;
        let new_mask = nb.mask;
        assert(new_mask == self.mask | (1u64 << (j as u64)));
        lemma_single_on_board(j);
        lemma_or_subset(self.mask, 1u64 << (j as u64), BOARD_MASK);
        lemma_xor_subset(self.position, self.mask);
        lemma_subset_trans(new_position, self.mask, new_mask);
        lemma_count_insert(self.mask, j, 64);
        lemma_count_subset(self.mask, BOARD_MASK, 64);
        lemma_count_board();
        let v0 = self@;
        let v1 = nb@;
        let target = v0.drop_piece(col);
        assert forall|k: (int, int)| #[trigger] v1.pieces.contains_key(k) == target.pieces.contains_key(k)
            by {
            if on_board(k.0, k.1) {
                lemma_bit_or_single(self.mask, j, k.0 * 7 + k.1);
            }
        }
        assert forall|k: (int, int)| #[trigger] v1.pieces.contains_key(k) implies v1.pieces[k]
            == target.pieces[k] by {
            let i = k.0 * 7 + k.1;
            lemma_bit_xor(self.position, self.mask, i);
            lemma_bit_or_single(self.mask, j, i);
            if k == (col, h) {
                if bit(self.position, i) {
                    lemma_bit_subset(self.position, self.mask, i);
                }
            }
        }
        assert(v1.pieces =~= target.pieces);
    }

    /// Parses a visual ASCII board into a `Bitboard`.
    ///
    /// Tokens per cell: `R` = Red, `Y` = Yellow, `·` or `.` = empty.
    /// Lines of digits (column headers) or dashes (footer) are skipped.
    /// Content rows are placed from the top: the first is row 5, the next row 4, and
    /// so on, so a picture of six rows ends with the bottom row and a picture of
    /// fewer rows leaves the rows below its last one empty.
    ///
    /// The text must picture a board: at most six content rows of seven cell tokens.
    pub fn from_ascii(s: &str, to_move: Player) -> (b: Bitboard)
        requires
            is_board_text(s@),
        ensures
            b@.to_move == to_move,
            b@.pieces == text_pieces(s@),
            b@.moves == text_pieces(s@).dom().len(),
    {
        let v = chars_of(s);
        let ghost rows = board_rows(lines_of(s@));
        let mut position: u64 = 0;
        let mut mask: u64 = 0;
        let mut moves: u32 = 0;
        let mut row_index: usize = HEIGHT;
        let mut start: usize = 0;
        let mut more = true;
        proof {
            assert(v@.skip(0) =~= v@);
            assert(rows.take(0) + rows =~= rows);
            assert(0u64 & !BOARD_MASK == 0) by (bit_vector);
            assert(0u64 & !0u64 == 0) by (bit_vector);
            lemma_count_zero(64);
            assert forall|i: int| 0 <= i < 64 implies !bit(0, i) by {
                lemma_bit_zero(i);
            }
        }
        while more
            invariant
                v@ == s@,
                rows == board_rows(lines_of(s@)),
                is_board_text(s@),
                start <= v.len(),
                row_index <= 6,
                6 - row_index <= rows.len(),
                more ==> rows == rows.take(6 - row_index) + board_rows(lines_of(v@.skip(start as int))),
                !more ==> rows.len() == 6 - row_index,
                mask & !BOARD_MASK == 0,
                position & !mask == 0,
                moves == popcount(mask),
                forall|i: int| 0 <= i < 64 ==> bit(mask, i) == placed(s@, 6 - row_index, 0, i),
                forall|i: int|
                    0 <= i < 64 ==> bit(position, i) == placed_own(s@, 6 - row_index, 0, i, to_move),
            decreases v.len() - start, if more {
                1int
            } else {
                0int
            },
        {
            let e = find_newline(&v, start);
            let ghost rest = v@.skip(start as int);
            let ghost line = v@.subrange(start as int, e as int);
            let ghost j = 6 - row_index;
            proof {
                lemma_lines_split(rest, e - start);
                assert(rest.take(e - start) =~= line);
                if e < v.len() {
                    assert(rest.skip(e - start + 1) =~= v@.skip(e + 1));
                    lemma_board_rows_cons(line, lines_of(v@.skip(e + 1)));
                } else {
                    lemma_board_rows_cons(line, Seq::empty());
                    assert(seq![line] + Seq::<Seq<char>>::empty() =~= seq![line]);
                }
            }
            if !decoration(&v, start, e) {
                proof {
                    assert(rows[j] == line);
                    assert(rows.len() <= 6);
                }
                row_index -= 1;
                let cells = row_cells(&v, start, e);
                let mut col: usize = 0;
                while col < WIDTH
                    invariant
                        v@ == s@,
                        rows == board_rows(lines_of(s@)),
                        row_index < 6,
                        j == 5 - row_index,
                        0 <= j < rows.len(),
                        rows[j] == line,
                        line == v@.subrange(start as int, e as int),
                        col <= WIDTH,
                        cells.len() == 7,
                        forall|k: int| 0 <= k < 7 ==> tokens_of_line(line, k) == seq![#[trigger] cells[k]],
                        mask & !BOARD_MASK == 0,
                        position & !mask == 0,
                        moves == popcount(mask),
                        forall|i: int| 0 <= i < 64 ==> bit(mask, i) == placed(s@, j, col as int, i),
                        forall|i: int|
                            0 <= i < 64 ==> bit(position, i) == placed_own(s@, j, col as int, i, to_move),
                    decreases WIDTH - col,
                {
                    proof {
                        assert(col * (HEIGHT + 1) == col * 7) by (nonlinear_arith);
                    }
                    let idx = col * (HEIGHT + 1) + row_index;
                    let cell = 1u64 << idx;
                    let c = cells[col];
                    let ghost ii = idx as int;
                    proof {
                        assert(ii / 7 == col && ii % 7 == row_index);
                        assert(text_cell(s@, col as int, row_index as int) == c) by {
                            assert(tokens_of_line(line, col as int) == seq![c]);
                        }
                        lemma_single_on_board(ii);
                        lemma_or_single_subset(mask, ii);
                        lemma_or_single_subset(position, ii);
                        lemma_count_subset(mask, BOARD_MASK, 64);
                        lemma_count_board();
                        assert forall|i: int| 0 <= i < 64 implies #[trigger] bit(mask | cell, i) == (bit(mask, i) || i == ii) by {
                            lemma_bit_or_single(mask, ii, i);
                        }
                        assert forall|i: int| 0 <= i < 64 implies #[trigger] bit(position | cell, i) == (bit(position, i) || i == ii) by {
                            lemma_bit_or_single(position, ii, i);
                        }
                        assert(!bit(mask, ii));
                    }
                    if c == 'R' || c == 'Y' {
                        proof {
                            lemma_count_insert(mask, ii, 64);
                            lemma_or_subset(mask, cell, BOARD_MASK);
                        }
                        let ghost old_mask = mask;
                        mask = mask | cell;
                        if (c == 'R') == (to_move == Player::Red) {
                            proof {
                                lemma_subset_trans(position, old_mask, mask);
                                lemma_or_subset(position, cell, mask);
                            }
                            position = position | cell;
                        } else {
                            proof {
                                lemma_subset_trans(position, old_mask, mask);
                            }
                        }
                        moves += 1;
                    }
                    col += 1;
                }
                proof {
                    assert forall|i: int| 0 <= i < 64 implies placed(s@, j, 7, i) == placed(s@, j + 1, 0, i) by {}
                }
            }
            if e == v.len() {
                more = false;
            } else {
                start = e + 1;
            }
        }
        proof {
            lemma_count_subset(mask, BOARD_MASK, 64);
            lemma_count_board();
        }
        let b = Bitboard { position, mask, current: to_move, moves };
        proof {
            let tp = text_pieces(s@);
            assert forall|k: (int, int)| #[trigger] b@.pieces.contains_key(k) == tp.contains_key(k) by {
                if on_board(k.0, k.1) {
                    let i = k.0 * 7 + k.1;
                    assert(i / 7 == k.0 && i % 7 == k.1);
                }
            }
            assert forall|k: (int, int)| #[trigger] b@.pieces.contains_key(k) implies b@.pieces[k] == tp[k] by {
                let i = k.0 * 7 + k.1;
                assert(i / 7 == k.0 && i % 7 == k.1);
            }
            assert(b@.pieces =~= tp);
            b.lemma_moves_count();
        }
        b
    }

    /// Returns true if the player who just moved has four in a row.
    ///
    /// Must be called *after* `play()`: checks the *previous* player's pieces
    /// (i.e. `position ^ mask`, since `play()` swapped perspective).
    pub fn is_winning(&self) -> (r: bool)
        ensures
            r == self@.four_in_a_row(self@.to_move.opponent()),
    {
        proof {
            use_type_invariant(self);
            self.lemma_pieces_of(self.current.opponent());
        }
        let opponent = self.position ^ self.mask;
        Self::has_alignment(opponent)
    }

    /// Returns true if the given player has won the game.
    pub fn has_won(&self, player: Player) -> (r: bool)
        ensures
            r == self@.four_in_a_row(player),
    {
        proof {
            use_type_invariant(self);
            self.lemma_pieces_of(player);
        }
        let pieces = if player == self.current {
            self.position
        } else {
            self.position ^ self.mask
        };
        Self::has_alignment(pieces)
    }

    /// Returns true if the board is completely full (draw).
    pub fn is_draw(&self) -> (r: bool)
        ensures
            r == (self@.moves >= 42),
            r == self@.is_full(),
    {
        proof {
            use_type_invariant(self);
            self.lemma_full();
        }
        self.moves as usize >= WIDTH * HEIGHT
    }

    /// Returns which player (if any) has a piece at the given (col, row) position.
    /// Row 0 is the bottom row.
    pub fn piece_at(&self, col: usize, row: usize) -> (r: Option<Player>)
        ensures
            !on_board(col as int, row as int) ==> r is None,
            r == if self@.pieces.contains_key((col as int, row as int)) {
                Some(self@.pieces[(col as int, row as int)])
            } else {
                None::<Player>
            },
    {
        if col >= WIDTH || row >= HEIGHT {
            return None;
        }
        proof {
            assert(col * (HEIGHT + 1) == col * 7) by (nonlinear_arith);
        }
        let idx = col * (HEIGHT + 1) + row;
        let bit = 1u64 << idx;
        proof {
            lemma_and_single(self.mask, idx as int);
            lemma_and_single(self.position, idx as int);
        }
        if (self.mask & bit) == 0 {
            return None;
        }
        // Determine which player owns this piece.
        // `position` is from the current player's perspective.
        let is_current = (self.position & bit) != 0;
        if is_current {
            Some(self.current)
        } else {
            Some(self.current.other())
        }
    }

    /// Returns a list of columns that are not full, in increasing order.
    pub fn valid_columns(&self) -> (cols: Vec<usize>)
        ensures
            forall|i: int| 0 <= i < cols.len() ==> self@.column_open(#[trigger] cols[i] as int),
            forall|i: int, j: int| 0 <= i < j < cols.len() ==> cols[i] < cols[j],
            forall|c: int| #[trigger] self@.column_open(c) ==> cols@.contains(c as usize),
    {
        let mut cols: Vec<usize> = Vec::new();
        let mut c: usize = 0;
        while c < WIDTH
            invariant
                c <= WIDTH,
                forall|i: int| 0 <= i < cols.len() ==> self@.column_open(#[trigger] cols[i] as int),
                forall|i: int| 0 <= i < cols.len() ==> #[trigger] cols[i] < c,
                forall|i: int, j: int| 0 <= i < j < cols.len() ==> cols[i] < cols[j],
                forall|d: int| 0 <= d < c && #[trigger] self@.column_open(d) ==> cols@.contains(d as usize),
            decreases WIDTH - c,
        {
            let ghost before = cols@;
            if self.can_play(c) {
                cols.push(c);
                proof {
                    assert(cols[cols.len() - 1] == c);
                    assert forall|d: int| 0 <= d < c + 1 && #[trigger] self@.column_open(d) implies cols@.contains(
                        d as usize,
                    ) by {
                        if d < c {
                            let k = choose|k: int| 0 <= k < before.len() && before[k] == d as usize;
                            assert(cols@[k] == d as usize);
                        } else {
                            assert(cols@[cols.len() - 1] == d as usize);
                        }
                    }
                }
            }
            c += 1;
        }
        cols
    }

    /// The transposition key of the position: `position + mask`.
    pub(crate) fn key(&self) -> (k: u64)
        ensures
            k == self.spec_key(),
    {
        proof {
            use_type_invariant(self);
            let (p, m) = (self.position, self.mask);
            assert(m & !0xfdfbf7efdfbfu64 == 0 ==> m < 0x1000000000000u64) by (bit_vector);
            assert(p & !m == 0 ==> p <= m) by (bit_vector);
        }
        self.position + self.mask
    }

    pub closed spec fn spec_key(self) -> u64 {
        (self.position + self.mask) as u64
    }

    /// The key is 0 exactly on the empty board.
    pub proof fn lemma_key_zero(self)
        requires
            self.wf(),
        ensures
            (self.spec_key() == 0) == (self@.moves == 0),
    {
        let (p, m) = (self.position, self.mask);
        assert(m & !0xfdfbf7efdfbfu64 == 0 ==> m < 0x1000000000000u64) by (bit_vector);
        assert(p & !m == 0 ==> p <= m) by (bit_vector);
        lemma_count_zero(64);
        if m == 0 {
            assert(p & !0u64 == 0 ==> p == 0) by (bit_vector);
        } else {
            assert((m >> 0u64) == m) by (bit_vector);
            lemma_nonzero_has_bit(m, 0);
            let i = choose|i: int| 0 <= i < 64 && #[trigger] bit(m, i);
            let k = i as u64;
            let single = 1u64 << k;
            lemma_bit_zero(i);
            lemma_count_insert(0, i, 64);
            assert(0u64 | single == single) by (bit_vector);
            assert((m >> k) & 1u64 == 1u64 && k < 64 ==> single & !m == 0) by (bit_vector)
                requires
                    single == 1u64 << k,
            ;
            lemma_count_subset(single, m, 64);
        }
    }

    /// The move counter equals the number of pieces on the board.
    pub proof fn lemma_moves_count(self)
        requires
            self.wf(),
        ensures
            self@.pieces.dom().finite(),
            self@.pieces.dom().len() == self@.moves,
    {
        lemma_cells_below(self.mask, 64);
        assert(self@.pieces.dom() =~= cells_below(self.mask, 64));
    }

    /// Two consistent boards without floating pieces, with the same key and the
    /// same player to move, are the same board.
    pub proof fn lemma_key_injective(a: Bitboard, b: Bitboard)
        requires
            a.wf(),
            b.wf(),
            a@.settled(),
            b@.settled(),
            a.spec_key() == b.spec_key(),
        ensures
            a@.moves == b@.moves,
            a@.to_move == b@.to_move ==> a == b,
    {
        a.lemma_settled_bits();
        b.lemma_settled_bits();
        lemma_key_injective_bits(a.position, a.mask, b.position, b.mask);
    }

    proof fn lemma_settled_bits(self)
        requires
            self.wf(),
            self@.settled(),
        ensures
            (self.mask >> 1u64) & !self.mask & 0x7cf9f3e7cf9fu64 == 0,
    {
        let m = self.mask;
        let g = (m >> 1u64) & !m & 0x7cf9f3e7cf9fu64;
        assert forall|i: int| 0 <= i < 64 implies bit(g, i) == bit(0, i) by {
            lemma_bit_zero(i);
            let ii = i as u64;
            assert(((((m >> 1u64) & !m & 0x7cf9f3e7cf9fu64) >> ii) & 1 == 1) == (ii < 63 && (m >> (ii
                + 1) as u64) & 1 == 1 && (m >> ii) & 1 != 1 && ii < 49 && ii % 7 < 5)) by (bit_vector)
                requires
                    ii < 64,
            ;
            if bit(g, i) {
                let (c, r) = (i / 7, i % 7);
                assert(c * 7 + r == i);
                assert(self@.pieces.contains_key((c, r + 1)));
            }
        }
        lemma_bits_equal(g, 0);
    }

    proof fn lemma_pieces_of(self, player: Player)
        requires
            self.wf(),
        ensures
            self.pieces_of(player) & !BOARD_MASK == 0,
            has_four(self.pieces_of(player)) == self@.four_in_a_row(player),
    {
        let x = self.pieces_of(player);
        let v = self@;
        lemma_subset_trans(self.position, self.mask, BOARD_MASK);
        lemma_xor_subset(self.position, self.mask);
        lemma_subset_trans(self.position ^ self.mask, self.mask, BOARD_MASK);
        assert forall|col: int, row: int| #[trigger] occupied(x, col, row) == v.owns(player, col, row) by {
            if on_board(col, row) {
                let i = col * 7 + row;
                lemma_bit_xor(self.position, self.mask, i);
                if bit(self.position, i) {
                    lemma_bit_subset(self.position, self.mask, i);
                }
                if bit(x, i) {
                    lemma_bit_subset(x, self.mask, i);
                }
            }
        }
        if has_four(x) {
            let (c, r, dc, dr) = choose|col: int, row: int, dc: int, dr: int|
                is_direction(dc, dr) && #[trigger] line_of_four(x, col, row, dc, dr);
            assert(v.four_at(player, c, r, dc, dr));
        }
        if v.four_in_a_row(player) {
            let (c, r, dc, dr) = choose|col: int, row: int, dc: int, dr: int|
                is_direction(dc, dr) && #[trigger] v.four_at(player, col, row, dc, dr);
            assert(line_of_four(x, c, r, dc, dr));
        }
    }

    /// Every piece lies on the board.
    pub proof fn lemma_pieces_on_board(self)
        ensures
            forall|k: (int, int)| #[trigger] self@.pieces.contains_key(k) ==> on_board(k.0, k.1),
    {
    }

    /// Playing keeps a board consistent: the masks stay valid, a settled board
    /// stays settled, the move count grows by one and counts the pieces, and the
    /// turn passes, so the parity link between the player to move and the move
    /// count is kept.
    pub proof fn lemma_play_keeps(self, col: int)
        requires
            self.wf(),
            self@.column_open(col),
        ensures
            self.spec_play(col).wf(),
            self@.settled() ==> self.spec_play(col)@.settled(),
            self.spec_play(col)@.moves == self@.moves + 1,
            self.spec_play(col)@.to_move == self@.to_move.opponent(),
            self.spec_play(col)@.pieces.dom().finite(),
            self.spec_play(col)@.pieces.dom().len() == self.spec_play(col)@.moves,
            ((self@.to_move == Player::Red) == (self@.moves % 2 == 0)) ==> ((self.spec_play(col)@.to_move
                == Player::Red) == (self.spec_play(col)@.moves % 2 == 0)),
    {
        self.lemma_spec_play(col);
        if self@.settled() {
            self@.lemma_drop_settled(col);
        }
        self.spec_play(col).lemma_moves_count();
    }

    /// The board after `play` is called with each column of `cols` in turn: a
    /// column that is not open is refused and leaves the board as it was.
    pub open spec fn play_all(self, cols: Seq<usize>) -> Bitboard
        decreases cols.len(),
    {
        if cols.len() == 0 {
            self
        } else {
            let next = if self@.column_open(cols[0] as int) {
                self.spec_play(cols[0] as int)
            } else {
                self
            };
            next.play_all(cols.drop_first())
        }
    }

    /// Every board reached by a sequence of moves (refused ones included) from a
    /// consistent, settled board whose player to move matches the parity of its
    /// move count, such as the empty board with Red to move, is again consistent
    /// and settled, counts its pieces in its move counter, and has Red to move
    /// exactly when that count is even.
    pub proof fn lemma_play_all_keeps(self, cols: Seq<usize>)
        requires
            self.wf(),
            self@.settled(),
            (self@.to_move == Player::Red) == (self@.moves % 2 == 0),
        ensures
            self.play_all(cols).wf(),
            self.play_all(cols)@.settled(),
            self.play_all(cols)@.pieces.dom().finite(),
            self.play_all(cols)@.pieces.dom().len() == self.play_all(cols)@.moves,
            (self.play_all(cols)@.to_move == Player::Red) == (self.play_all(cols)@.moves % 2 == 0),
        decreases cols.len(),
    {
        if cols.len() == 0 {
            self.lemma_moves_count();
        } else {
            if self@.column_open(cols[0] as int) {
                self.lemma_play_keeps(cols[0] as int);
                self.spec_play(cols[0] as int).lemma_play_all_keeps(cols.drop_first());
            } else {
                self.lemma_play_all_keeps(cols.drop_first());
            }
        }
    }

    pub proof fn lemma_full(self)
        requires
            self.wf(),
        ensures
            self@.moves <= 42,
            (self@.moves >= 42) == self@.is_full(),
    {
        lemma_count_subset(self.mask, BOARD_MASK, 64);
        lemma_count_board();
        if self.moves >= 42 {
            assert forall|col: int, row: int| on_board(col, row) implies self@.pieces.contains_key(
                (col, row),
            ) by {
                lemma_board_bit_iff(col * 7 + row);
            }
        }
        if self@.is_full() {
            assert forall|i: int| 0 <= i < 64 implies bit(self.mask, i) == bit(BOARD_MASK, i) by {
                lemma_board_bit_iff(i);
                if bit(self.mask, i) {
                    lemma_bit_subset(self.mask, BOARD_MASK, i);
                }
                if bit(BOARD_MASK, i) {
                    assert(on_board(i / 7, i % 7));
                    assert(self@.pieces.contains_key((i / 7, i % 7)));
                    assert((i / 7) * 7 + i % 7 == i);
                }
            }
            lemma_bits_equal(self.mask, BOARD_MASK);
        }
    }
}

proof fn lemma_landing(v: BoardView, col: int, row: int)
    requires
        0 <= row <= 5,
        v.column_open(col),
    ensures
        row <= v.landing_from(col, row) <= 5,
        !v.pieces.contains_key((col, v.landing_from(col, row))),
        forall|r: int| row <= r < v.landing_from(col, row) ==> v.pieces.contains_key((col, r)),
    decreases 6 - row,
{
    if row < 5 && v.pieces.contains_key((col, row)) {
        lemma_landing(v, col, row + 1);
    }
}

/// The pieces a board picture shows.
pub open spec fn text_pieces(s: Seq<char>) -> Map<(int, int), Player> {
    Map::new(
        |k: (int, int)| on_board(k.0, k.1) && (text_cell(s, k.0, k.1) == 'R' || text_cell(s, k.0, k.1) == 'Y'),
        |k: (int, int)|
            if text_cell(s, k.0, k.1) == 'R' {
                Player::Red
            } else {
                Player::Yellow
            },
    )
}

/// The cells of the first `rows_done` rows of a picture, and the first `cols_done`
/// cells of the next one, that hold a piece.
spec fn placed(s: Seq<char>, rows_done: int, cols_done: int, i: int) -> bool {
    let c = i / 7;
    let r = i % 7;
    &&& 0 <= i < 49
    &&& r < 6
    &&& (5 - r < rows_done || (5 - r == rows_done && c < cols_done))
    &&& (text_cell(s, c, r) == 'R' || text_cell(s, c, r) == 'Y')
}

spec fn placed_own(s: Seq<char>, rows_done: int, cols_done: int, i: int, to_move: Player) -> bool {
    placed(s, rows_done, cols_done, i) && ((text_cell(s, i / 7, i % 7) == 'R') == (to_move
        == Player::Red))
}

/// The `k`th token of a line.
spec fn tokens_of_line(line: Seq<char>, k: int) -> Seq<char> {
    crate::text::tokens(line)[k]
}

/// Bottom bit of a column.
fn bottom_mask(col: usize) -> (m: u64)
    requires
        col < WIDTH,
    ensures
        m == 1u64 << (col as u64 * 7),
{
    assert(col * (HEIGHT + 1) == col * 7) by (nonlinear_arith);
    1u64 << (col * (HEIGHT + 1))
}

/// Top playable bit of a column.
fn top_mask(col: usize) -> (m: u64)
    requires
        col < WIDTH,
    ensures
        m == 1u64 << (col as u64 * 7 + 5),
{
    assert(col * (HEIGHT + 1) == col * 7) by (nonlinear_arith);
    1u64 << (col * (HEIGHT + 1) + HEIGHT - 1)
}
} // verus!
