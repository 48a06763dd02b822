use vstd::prelude::*;

verus! {

/// Every playable cell: the lower six bits of each seven-bit column.
pub const BOARD_MASK: u64 = 0xfdfbf7efdfbf;

/// Bit `i` of `x` is set.
pub open spec fn bit(x: u64, i: int) -> bool {
    0 <= i < 64 && (x >> (i as u64)) & 1u64 == 1u64
}

/// (col, row) is a cell of the 7x6 board.
pub open spec fn on_board(col: int, row: int) -> bool {
    0 <= col < 7 && 0 <= row < 6
}

/// The cell (col, row) is on the board and its bit is set in `x`.
pub open spec fn occupied(x: u64, col: int, row: int) -> bool {
    on_board(col, row) && bit(x, col * 7 + row)
}

/// The four line directions: horizontal, vertical and the two diagonals.
pub open spec fn is_direction(dc: int, dr: int) -> bool {
    (dc == 1 && dr == 0) || (dc == 0 && dr == 1) || (dc == 1 && dr == 1) || (dc == 1 && dr == -1)
}

/// Four set cells in a line from (col, row) with step (dc, dr).
pub open spec fn line_of_four(x: u64, col: int, row: int, dc: int, dr: int) -> bool {
    &&& occupied(x, col, row)
    &&& occupied(x, col + dc, row + dr)
    &&& occupied(x, col + 2 * dc, row + 2 * dr)
    &&& occupied(x, col + 3 * dc, row + 3 * dr)
}

/// `x` holds four in a row.
pub open spec fn has_four(x: u64) -> bool {
    exists|col: int, row: int, dc: int, dr: int|
        is_direction(dc, dr) && #[trigger] line_of_four(x, col, row, dc, dr)
}

/// Bits `i`, `i + s`, `i + 2s` and `i + 3s` of `x` are set.
pub open spec fn four_bits(x: u64, i: int, s: int) -> bool {
    bit(x, i) && bit(x, i + s) && bit(x, i + 2 * s) && bit(x, i + 3 * s)
}

/// The shift-and-mask test for four in a row with stride `s`.
pub open spec fn dir_test(x: u64, s: u64) -> bool {
    let m = x & (x >> s);
    (m & (m >> (2 * s) as u64)) != 0
}

pub proof fn lemma_nonzero_has_bit(x: u64, n: u64)
    requires
        n < 64,
        (x >> n) != 0,
    ensures
        exists|i: int| n <= i < 64 && #[trigger] bit(x, i),
    decreases 64 - n,
{
    if (x >> n) & 1 == 1 {
        assert(bit(x, n as int));
    } else if n == 63 {
        assert((x >> 63u64) != 0 ==> (x >> 63u64) & 1 == 1) by (bit_vector);
    } else {
        assert((x >> n) != 0 && (x >> n) & 1 != 1 && n < 63 ==> (x >> ((n + 1) as u64)) != 0)
            by (bit_vector);
        lemma_nonzero_has_bit(x, (n + 1) as u64);
    }
}

pub proof fn lemma_bit_nonzero(x: u64, i: u64)
    requires
        i < 64,
        (x >> i) & 1 == 1,
    ensures
        x != 0,
{
    assert(i < 64 && (x >> i) & 1 == 1 ==> x != 0) by (bit_vector);
}

pub proof fn lemma_dir_bit(x: u64, s: u64, i: u64)
    requires
        1 <= s <= 8,
        i < 64,
    ensures
        ({
            let m = x & (x >> s);
            let y = m & (m >> (2 * s) as u64);
            ((y >> i) & 1 == 1) == four_bits(x, i as int, s as int)
        }),
{
    let m = x & (x >> s);
    let y = m & (m >> (2 * s) as u64);
    assert(((y >> i) & 1 == 1) == (i + 3 * s < 64 && (x >> i) & 1 == 1 && (x >> (i + s) as u64) & 1
        == 1 && (x >> (i + 2 * s) as u64) & 1 == 1 && (x >> (i + 3 * s) as u64) & 1 == 1))
        by (bit_vector)
        requires
            1 <= s <= 8,
            i < 64,
            m == x & (x >> s),
            y == m & (m >> (2 * s) as u64),
    ;
}

pub proof fn lemma_dir_test(x: u64, s: u64)
    requires
        1 <= s <= 8,
    ensures
        dir_test(x, s) == exists|i: int| 0 <= i < 64 && #[trigger] four_bits(x, i, s as int),
{
    let m = x & (x >> s);
    let y = m & (m >> (2 * s) as u64);
    if y != 0 {
        assert(y >> 0u64 == y) by (bit_vector);
        lemma_nonzero_has_bit(y, 0);
        let i = choose|i: int| 0 <= i < 64 && #[trigger] bit(y, i);
        lemma_dir_bit(x, s, i as u64);
        assert(four_bits(x, i, s as int));
    }
    if exists|i: int| 0 <= i < 64 && #[trigger] four_bits(x, i, s as int) {
        let i = choose|i: int| 0 <= i < 64 && #[trigger] four_bits(x, i, s as int);
        lemma_dir_bit(x, s, i as u64);
        lemma_bit_nonzero(y, i as u64);
    }
}

pub proof fn lemma_board_bit(x: u64, j: int)
    requires
        x & !BOARD_MASK == 0,
        bit(x, j),
    ensures
        0 <= j < 49,
        j % 7 < 6,
{
    let k = j as u64;
    assert((x & !0xfdfbf7efdfbfu64) == 0 && k < 64 && (x >> k) & 1 == 1 ==> k < 49 && k % 7 < 6)
        by (bit_vector);
}

pub proof fn lemma_line_to_bits(x: u64, col: int, row: int, dc: int, dr: int)
    requires
        is_direction(dc, dr),
        line_of_four(x, col, row, dc, dr),
    ensures
        0 <= col * 7 + row < 64,
        four_bits(x, col * 7 + row, dc * 7 + dr),
{
}

pub proof fn lemma_bits_to_line(x: u64, i: int, s: int)
    requires
        x & !BOARD_MASK == 0,
        s == 1 || s == 6 || s == 7 || s == 8,
        four_bits(x, i, s),
    ensures
        s == 7 ==> line_of_four(x, i / 7, i % 7, 1, 0),
        s == 1 ==> line_of_four(x, i / 7, i % 7, 0, 1),
        s == 8 ==> line_of_four(x, i / 7, i % 7, 1, 1),
        s == 6 ==> line_of_four(x, i / 7, i % 7, 1, -1),
{
    lemma_board_bit(x, i);
    lemma_board_bit(x, i + s);
    lemma_board_bit(x, i + 2 * s);
    lemma_board_bit(x, i + 3 * s);
}

pub proof fn lemma_has_four(x: u64)
    requires
        x & !BOARD_MASK == 0,
    ensures
        has_four(x) == (dir_test(x, 7) || dir_test(x, 1) || dir_test(x, 6) || dir_test(x, 8)),
{
    lemma_dir_test(x, 7);
    lemma_dir_test(x, 1);
    lemma_dir_test(x, 6);
    lemma_dir_test(x, 8);
    if has_four(x) {
        let (c, r, dc, dr) = choose|col: int, row: int, dc: int, dr: int|
            is_direction(dc, dr) && #[trigger] line_of_four(x, col, row, dc, dr);
        lemma_line_to_bits(x, c, r, dc, dr);
        let i = c * 7 + r;
        if dc == 1 && dr == 0 {
            assert(four_bits(x, i, 7));
        } else if dc == 0 && dr == 1 {
            assert(four_bits(x, i, 1));
        } else if dc == 1 && dr == 1 {
            assert(four_bits(x, i, 8));
        } else {
            assert(four_bits(x, i, 6));
        }
    }
    if dir_test(x, 7) {
        let i = choose|i: int| 0 <= i < 64 && #[trigger] four_bits(x, i, 7);
        lemma_bits_to_line(x, i, 7);
        assert(line_of_four(x, i / 7, i % 7, 1, 0));
    }
    if dir_test(x, 1) {
        let i = choose|i: int| 0 <= i < 64 && #[trigger] four_bits(x, i, 1);
        lemma_bits_to_line(x, i, 1);
        assert(line_of_four(x, i / 7, i % 7, 0, 1));
    }
    if dir_test(x, 6) {
        let i = choose|i: int| 0 <= i < 64 && #[trigger] four_bits(x, i, 6);
        lemma_bits_to_line(x, i, 6);
        assert(line_of_four(x, i / 7, i % 7, 1, -1));
    }
    if dir_test(x, 8) {
        let i = choose|i: int| 0 <= i < 64 && #[trigger] four_bits(x, i, 8);
        lemma_bits_to_line(x, i, 8);
        assert(line_of_four(x, i / 7, i % 7, 1, 1));
    }
}

// ---------------------------------------------------------------------------
// Single-bit facts
// ---------------------------------------------------------------------------

pub proof fn lemma_bit_or_single(m: u64, j: int, i: int)
    requires
        0 <= j < 64,
        0 <= i < 64,
    ensures
        bit(m | (1u64 << (j as u64)), i) == (bit(m, i) || i == j),
{
    let (jj, ii) = (j as u64, i as u64);
    assert((((m | (1u64 << jj)) >> ii) & 1 == 1) == ((m >> ii) & 1 == 1 || ii == jj)) by (bit_vector)
        requires
            jj < 64,
            ii < 64,
    ;
}

pub proof fn lemma_bit_xor(a: u64, b: u64, i: int)
    requires
        0 <= i < 64,
    ensures
        bit(a ^ b, i) == (bit(a, i) != bit(b, i)),
{
    let ii = i as u64;
    assert((((a ^ b) >> ii) & 1 == 1) == (((a >> ii) & 1 == 1) != ((b >> ii) & 1 == 1)))
        by (bit_vector);
}

pub proof fn lemma_bit_subset(a: u64, b: u64, i: int)
    requires
        a & !b == 0,
        bit(a, i),
    ensures
        bit(b, i),
{
    let ii = i as u64;
    assert(a & !b == 0 && (a >> ii) & 1 == 1 ==> (b >> ii) & 1 == 1) by (bit_vector);
}

pub proof fn lemma_bit_zero(i: int)
    ensures
        !bit(0, i),
{
    let ii = i as u64;
    assert((0u64 >> ii) & 1 != 1) by (bit_vector);
}

/// Two words agreeing on every bit are equal.
pub proof fn lemma_bits_equal(a: u64, b: u64)
    requires
        forall|i: int| 0 <= i < 64 ==> bit(a, i) == bit(b, i),
    ensures
        a == b,
{
    if a != b {
        let d = a ^ b;
        assert(a != b ==> (a ^ b) != 0) by (bit_vector);
        assert(d >> 0u64 == d) by (bit_vector);
        lemma_nonzero_has_bit(d, 0);
        let i = choose|i: int| 0 <= i < 64 && #[trigger] bit(d, i);
        lemma_bit_xor(a, b, i);
        assert(bit(a, i) == bit(b, i));
    }
}

// ---------------------------------------------------------------------------
// Counting pieces
// ---------------------------------------------------------------------------

/// Number of set bits among the lowest `n` bits of `x`.
pub open spec fn count_bits(x: u64, n: nat) -> nat
    decreases n,
{
    if n == 0 {
        0
    } else {
        count_bits(x, (n - 1) as nat) + if bit(x, n - 1) {
            1nat
        } else {
            0nat
        }
    }
}

/// Number of set bits of `x`.
pub open spec fn popcount(x: u64) -> nat {
    count_bits(x, 64)
}

pub proof fn lemma_count_insert(m: u64, j: int, n: nat)
    requires
        0 <= j < 64,
        !bit(m, j),
        n <= 64,
    ensures
        count_bits(m | (1u64 << (j as u64)), n) == count_bits(m, n) + if j < n {
            1nat
        } else {
            0nat
        },
    decreases n,
{
    if n > 0 {
        lemma_count_insert(m, j, (n - 1) as nat);
        lemma_bit_or_single(m, j, n - 1);
    }
}

pub proof fn lemma_count_subset(a: u64, b: u64, n: nat)
    requires
        a & !b == 0,
        n <= 64,
    ensures
        count_bits(a, n) <= count_bits(b, n),
        count_bits(a, n) == count_bits(b, n) ==> forall|i: int| 0 <= i < n ==> bit(a, i) == bit(b, i),
    decreases n,
{
    if n > 0 {
        lemma_count_subset(a, b, (n - 1) as nat);
        if bit(a, n - 1) {
            lemma_bit_subset(a, b, n - 1);
        }
    }
}

pub proof fn lemma_board_bit_iff(j: int)
    requires
        0 <= j < 64,
    ensures
        bit(BOARD_MASK, j) == (j < 49 && j % 7 < 6),
{
    let k = j as u64;
    assert(((0xfdfbf7efdfbfu64 >> k) & 1 == 1) == (k < 49 && k % 7 < 6)) by (bit_vector)
        requires
            k < 64,
    ;
}

spec fn board_cells_below(n: int) -> int {
    if n >= 49 {
        42
    } else {
        6 * (n / 7) + if n % 7 < 6 {
            n % 7
        } else {
            6
        }
    }
}

proof fn lemma_count_board_upto(n: nat)
    requires
        n <= 64,
    ensures
        count_bits(BOARD_MASK, n) == board_cells_below(n as int),
    decreases n,
{
    if n > 0 {
        lemma_count_board_upto((n - 1) as nat);
        lemma_board_bit_iff(n - 1);
    }
}

pub proof fn lemma_count_board()
    ensures
        popcount(BOARD_MASK) == 42,
{
    lemma_count_board_upto(64);
}

pub proof fn lemma_count_zero(n: nat)
    requires
        n <= 64,
    ensures
        count_bits(0, n) == 0,
    decreases n,
{
    if n > 0 {
        lemma_count_zero((n - 1) as nat);
        lemma_bit_zero(n - 1);
    }
}

pub proof fn lemma_subset_trans(a: u64, b: u64, c: u64)
    requires
        a & !b == 0,
        b & !c == 0,
    ensures
        a & !c == 0,
{
    assert(a & !b == 0 && b & !c == 0 ==> a & !c == 0) by (bit_vector);
}

pub proof fn lemma_and_single(m: u64, j: int)
    requires
        0 <= j < 64,
    ensures
        (m & (1u64 << (j as u64)) == 0) == !bit(m, j),
{
    let jj = j as u64;
    assert((m & (1u64 << jj) == 0) == !((m >> jj) & 1 == 1)) by (bit_vector)
        requires
            jj < 64,
    ;
}

/// Adding the bottom bit of a column to the mask carries through the filled
/// cells at the foot of that column and sets the first empty one.
pub proof fn lemma_carry(m: u64, k: u64, h: u64)
    requires
        m & !BOARD_MASK == 0,
        k <= 42,
        h <= 5,
        forall|r: int| 0 <= r < h ==> #[trigger] bit(m, k + r),
        !bit(m, k + h),
    ensures
        m + (1u64 << k) <= u64::MAX,
        m | ((m + (1u64 << k)) as u64) == m | (1u64 << (k + h) as u64),
{
    assert(m & !0xfdfbf7efdfbfu64 == 0 ==> m < 0x1000000000000u64) by (bit_vector);
    assert(k <= 42 ==> 1u64 << k <= 0x40000000000u64) by (bit_vector);
    let t = (m + (1u64 << k)) as u64;
    if h == 0 {
        assert(m | t == m | (1u64 << k)) by (bit_vector)
            requires
                k <= 42,
                m < 0x1000000000000u64,
                t == (m + (1u64 << k)) as u64,
                (m >> k) & 1 != 1,
        ;
    } else if h == 1 {
        assert(bit(m, k + 0));
        assert(m | t == m | (1u64 << (k + 1) as u64)) by (bit_vector)
            requires
                k <= 42,
                m < 0x1000000000000u64,
                t == (m + (1u64 << k)) as u64,
                (m >> k) & 1 == 1,
                (m >> (k + 1) as u64) & 1 != 1,
        ;
    } else if h == 2 {
        assert(bit(m, k + 0));
        assert(bit(m, k + 1));
        assert(m | t == m | (1u64 << (k + 2) as u64)) by (bit_vector)
            requires
                k <= 42,
                m < 0x1000000000000u64,
                t == (m + (1u64 << k)) as u64,
                (m >> k) & 1 == 1,
                (m >> (k + 1) as u64) & 1 == 1,
                (m >> (k + 2) as u64) & 1 != 1,
        ;
    } else if h == 3 {
        assert(bit(m, k + 0));
        assert(bit(m, k + 1));
        assert(bit(m, k + 2));
        assert(m | t == m | (1u64 << (k + 3) as u64)) by (bit_vector)
            requires
                k <= 42,
                m < 0x1000000000000u64,
                t == (m + (1u64 << k)) as u64,
                (m >> k) & 1 == 1,
                (m >> (k + 1) as u64) & 1 == 1,
                (m >> (k + 2) as u64) & 1 == 1,
                (m >> (k + 3) as u64) & 1 != 1,
        ;
    } else if h == 4 {
        assert(bit(m, k + 0));
        assert(bit(m, k + 1));
        assert(bit(m, k + 2));
        assert(bit(m, k + 3));
        assert(m | t == m | (1u64 << (k + 4) as u64)) by (bit_vector)
            requires
                k <= 42,
                m < 0x1000000000000u64,
                t == (m + (1u64 << k)) as u64,
                (m >> k) & 1 == 1,
                (m >> (k + 1) as u64) & 1 == 1,
                (m >> (k + 2) as u64) & 1 == 1,
                (m >> (k + 3) as u64) & 1 == 1,
                (m >> (k + 4) as u64) & 1 != 1,
        ;
    } else {
        assert(bit(m, k + 0));
        assert(bit(m, k + 1));
        assert(bit(m, k + 2));
        assert(bit(m, k + 3));
        assert(bit(m, k + 4));
        assert(m | t == m | (1u64 << (k + 5) as u64)) by (bit_vector)
            requires
                k <= 42,
                m < 0x1000000000000u64,
                t == (m + (1u64 << k)) as u64,
                (m >> k) & 1 == 1,
                (m >> (k + 1) as u64) & 1 == 1,
                (m >> (k + 2) as u64) & 1 == 1,
                (m >> (k + 3) as u64) & 1 == 1,
                (m >> (k + 4) as u64) & 1 == 1,
                (m >> (k + 5) as u64) & 1 != 1,
        ;
    }
}

pub proof fn lemma_single_on_board(j: int)
    requires
        0 <= j < 49,
        j % 7 < 6,
    ensures
        (1u64 << (j as u64)) & !BOARD_MASK == 0,
{
    let jj = j as u64;
    assert((1u64 << jj) & !0xfdfbf7efdfbfu64 == 0) by (bit_vector)
        requires
            jj < 49,
            jj % 7 < 6,
    ;
}

pub proof fn lemma_or_subset(a: u64, b: u64, c: u64)
    requires
        a & !c == 0,
        b & !c == 0,
    ensures
        (a | b) & !c == 0,
        a & !(a | b) == 0,
{
    assert(a & !c == 0 && b & !c == 0 ==> (a | b) & !c == 0) by (bit_vector);
    assert(a & !(a | b) == 0) by (bit_vector);
}

pub proof fn lemma_xor_subset(p: u64, m: u64)
    requires
        p & !m == 0,
    ensures
        (p ^ m) & !m == 0,
{
    assert(p & !m == 0 ==> (p ^ m) & !m == 0) by (bit_vector);
}

pub proof fn lemma_key_injective_bits(p1: u64, m1: u64, p2: u64, m2: u64)
    requires
        p1 & !m1 == 0,
        p2 & !m2 == 0,
        m1 & !BOARD_MASK == 0,
        m2 & !BOARD_MASK == 0,
        (m1 >> 1u64) & !m1 & 0x7cf9f3e7cf9fu64 == 0,
        (m2 >> 1u64) & !m2 & 0x7cf9f3e7cf9fu64 == 0,
        (p1 + m1) as u64 == (p2 + m2) as u64,
    ensures
        p1 == p2,
        m1 == m2,
{
    assert(p1 == p2 && m1 == m2) by (bit_vector)
        requires
            p1 & !m1 == 0,
            p2 & !m2 == 0,
            m1 & !0xfdfbf7efdfbfu64 == 0,
            m2 & !0xfdfbf7efdfbfu64 == 0,
            (m1 >> 1u64) & !m1 & 0x7cf9f3e7cf9fu64 == 0,
            (m2 >> 1u64) & !m2 & 0x7cf9f3e7cf9fu64 == 0,
            (p1 + m1) as u64 == (p2 + m2) as u64,
    ;
}

/// The occupied cells among the first `n` bit positions of `m`.
pub open spec fn cells_below(m: u64, n: int) -> Set<(int, int)> {
    Set::new(|k: (int, int)| on_board(k.0, k.1) && k.0 * 7 + k.1 < n && bit(m, k.0 * 7 + k.1))
}

pub proof fn lemma_or_single_subset(m: u64, j: int)
    requires
        0 <= j < 64,
    ensures
        (1u64 << (j as u64)) & !(m | (1u64 << (j as u64))) == 0,
        m & !(m | (1u64 << (j as u64))) == 0,
{
    let jj = j as u64;
    assert((1u64 << jj) & !(m | (1u64 << jj)) == 0) by (bit_vector);
    assert(m & !(m | (1u64 << jj)) == 0) by (bit_vector);
}

pub proof fn lemma_cells_below(m: u64, n: nat)
    requires
        m & !BOARD_MASK == 0,
        n <= 64,
    ensures
        cells_below(m, n as int).finite(),
        cells_below(m, n as int).len() == count_bits(m, n),
    decreases n,
{
    if n == 0 {
        assert(cells_below(m, 0) =~= Set::<(int, int)>::empty());
    } else {
        let k = n - 1;
        lemma_cells_below(m, k as nat);
        let prev = cells_below(m, k);
        if bit(m, k) {
            lemma_board_bit(m, k);
            let cell = (k / 7, k % 7);
            assert(cells_below(m, n as int) =~= prev.insert(cell));
            assert(!prev.contains(cell));
        } else {
            assert(cells_below(m, n as int) =~= prev);
        }
    }
}
} // verus!
