use vstd::prelude::*;

verus! {

/// Unicode white space, as `char::is_whitespace` classifies it.
pub open spec fn is_space(c: char) -> bool {
    let u = c as u32;
    (9 <= u <= 13) || u == 32 || u == 0x85 || u == 0xA0 || u == 0x1680 || (0x2000 <= u <= 0x200A)
        || u == 0x2028 || u == 0x2029 || u == 0x202F || u == 0x205F || u == 0x3000
}

/// Whether `c` is white space.
pub fn space(c: char) -> (r: bool)
    ensures
        r == is_space(c),
{
    let u = c as u32;
    (9 <= u && u <= 13) || u == 32 || u == 0x85 || u == 0xA0 || u == 0x1680 || (0x2000 <= u && u
        <= 0x200A) || u == 0x2028 || u == 0x2029 || u == 0x202F || u == 0x205F || u == 0x3000
}

/// The characters of a string.
pub fn chars_of(s: &str) -> (v: Vec<char>)
    ensures
        v@ == s@,
{
    let mut v: Vec<char> = Vec::new();
    for c in it: s.chars()
        invariant
            v@ == it.seq().take(it.index() as int),
            it.seq() == s@,
    {
        v.push(c);
    }
    v
}

/// The lines of a text: the pieces between line feeds (an empty text has one empty line).
pub open spec fn lines_of(s: Seq<char>) -> Seq<Seq<char>>
    decreases s.len(),
{
    if s.len() == 0 {
        seq![Seq::empty()]
    } else {
        let rest = lines_of(s.drop_first());
        if s[0] == '\n' {
            seq![Seq::<char>::empty()] + rest
        } else {
            rest.update(0, seq![s[0]] + rest[0])
        }
    }
}

pub proof fn lemma_lines_nonempty(s: Seq<char>)
    ensures
        lines_of(s).len() >= 1,
    decreases s.len(),
{
    if s.len() > 0 {
        lemma_lines_nonempty(s.drop_first());
    }
}

/// Splitting off the first line.
pub proof fn lemma_lines_split(s: Seq<char>, e: int)
    requires
        0 <= e <= s.len(),
        forall|i: int| 0 <= i < e ==> s[i] != '\n',
        e < s.len() ==> s[e] == '\n',
    ensures
        e < s.len() ==> lines_of(s) == seq![s.take(e)] + lines_of(s.skip(e + 1)),
        e == s.len() ==> lines_of(s) == seq![s],
    decreases e,
{
    if e == 0 {
        if s.len() == 0 {
            assert(s =~= Seq::<char>::empty());
        } else {
            assert(s.skip(1) =~= s.drop_first());
            assert(s.take(0) =~= Seq::<char>::empty());
        }
    } else {
        let t = s.drop_first();
        lemma_lines_split(t, e - 1);
        lemma_lines_nonempty(t);
        if e < s.len() {
            assert(t.skip(e) =~= s.skip(e + 1));
            assert(seq![s[0]] + t.take(e - 1) =~= s.take(e));
            assert(lines_of(s) =~= seq![s.take(e)] + lines_of(s.skip(e + 1)));
        } else {
            assert(seq![s[0]] + t =~= s);
            assert(lines_of(s) =~= seq![s]);
        }
    }
}

/// Length of the run of non-space characters at the start of `x`.
pub open spec fn run_len(x: Seq<char>) -> nat
    decreases x.len(),
{
    if x.len() == 0 || is_space(x[0]) {
        0
    } else {
        1 + run_len(x.drop_first())
    }
}

pub proof fn lemma_run_len(x: Seq<char>)
    ensures
        run_len(x) <= x.len(),
        x.len() > 0 && !is_space(x[0]) ==> run_len(x) >= 1,
        forall|i: int| 0 <= i < run_len(x) ==> !is_space(#[trigger] x[i]),
        run_len(x) < x.len() ==> is_space(x[run_len(x) as int]),
    decreases x.len(),
{
    if x.len() > 0 && !is_space(x[0]) {
        lemma_run_len(x.drop_first());
        assert forall|i: int| 0 <= i < run_len(x) implies !is_space(#[trigger] x[i]) by {
            if i > 0 {
                assert(x[i] == x.drop_first()[i - 1]);
            }
        }
        if run_len(x) < x.len() {
            assert(x[run_len(x) as int] == x.drop_first()[run_len(x) - 1]);
        }
    }
}

/// The white-space separated tokens of a line.
pub open spec fn tokens(x: Seq<char>) -> Seq<Seq<char>>
    decreases x.len(),
{
    if x.len() == 0 {
        seq![]
    } else if is_space(x[0]) {
        tokens(x.drop_first())
    } else {
        let n = run_len(x);
        proof {
            lemma_run_len(x);
        }
        seq![x.take(n as int)] + tokens(x.skip(n as int))
    }
}

pub open spec fn is_digit(c: char) -> bool {
    '0' <= c <= '9'
}

/// A header of column numbers or a footer of dashes (or a blank line): not a board row.
pub open spec fn is_decoration(l: Seq<char>) -> bool {
    (forall|i: int| 0 <= i < l.len() ==> is_digit(#[trigger] l[i]) || is_space(l[i])) || (forall|i: int|
        0 <= i < l.len() ==> #[trigger] l[i] == '-' || is_space(l[i]))
}

/// The board rows among some lines, top row first.
pub open spec fn board_rows(ls: Seq<Seq<char>>) -> Seq<Seq<char>>
    decreases ls.len(),
{
    if ls.len() == 0 {
        seq![]
    } else if is_decoration(ls[0]) {
        board_rows(ls.drop_first())
    } else {
        seq![ls[0]] + board_rows(ls.drop_first())
    }
}

pub proof fn lemma_board_rows_cons(l: Seq<char>, rest: Seq<Seq<char>>)
    ensures
        board_rows(seq![l] + rest) == if is_decoration(l) {
            board_rows(rest)
        } else {
            seq![l] + board_rows(rest)
        },
{
    assert((seq![l] + rest).drop_first() =~= rest);
}

/// A cell token: `R`, `Y`, a middle dot or a period.
pub open spec fn is_cell_token(t: Seq<char>) -> bool {
    t == seq!['R'] || t == seq!['Y'] || t == seq!['\u{00b7}'] || t == seq!['.']
}

/// A board row: seven cell tokens.
pub open spec fn is_board_row(l: Seq<char>) -> bool {
    tokens(l).len() == 7 && forall|k: int| 0 <= k < 7 ==> is_cell_token(#[trigger] tokens(l)[k])
}

/// A text picture of a board: at most six board rows, each of seven cell tokens.
pub open spec fn is_board_text(s: Seq<char>) -> bool {
    let rows = board_rows(lines_of(s));
    rows.len() <= 6 && forall|j: int| 0 <= j < rows.len() ==> is_board_row(#[trigger] rows[j])
}

/// The character at (col, row) of a board picture: its first board row is row 5.
pub open spec fn text_cell(s: Seq<char>, col: int, row: int) -> char {
    let rows = board_rows(lines_of(s));
    let j = 5 - row;
    if 0 <= col < 7 && 0 <= row < 6 && j < rows.len() {
        tokens(rows[j])[col][0]
    } else {
        '.'
    }
}

/// The index of the first line feed at or after `start`, or the length.
pub fn find_newline(v: &Vec<char>, start: usize) -> (e: usize)
    requires
        start <= v.len(),
    ensures
        start <= e <= v.len(),
        forall|i: int| start <= i < e ==> v[i] != '\n',
        e < v.len() ==> v[e as int] == '\n',
{
    let mut e = start;
    while e < v.len() && v[e] != '\n'
        invariant
            start <= e <= v.len(),
            forall|i: int| start <= i < e ==> v[i] != '\n',
        decreases v.len() - e,
    {
        e += 1;
    }
    e
}

/// Whether `v[a..e]` is a header, footer or blank line.
pub fn decoration(v: &Vec<char>, a: usize, e: usize) -> (r: bool)
    requires
        a <= e <= v.len(),
    ensures
        r == is_decoration(v@.subrange(a as int, e as int)),
{
    let ghost l = v@.subrange(a as int, e as int);
    let mut digits = true;
    let mut dashes = true;
    let mut i = a;
    while i < e
        invariant
            a <= i <= e <= v.len(),
            l == v@.subrange(a as int, e as int),
            digits == forall|k: int| 0 <= k < i - a ==> is_digit(#[trigger] l[k]) || is_space(l[k]),
            dashes == forall|k: int| 0 <= k < i - a ==> #[trigger] l[k] == '-' || is_space(l[k]),
        decreases e - i,
    {
        let c = v[i];
        let sp = space(c);
        proof {
            assert(l[i - a] == c);
        }
        if !(('0' <= c && c <= '9') || sp) {
            digits = false;
        }
        if !(c == '-' || sp) {
            dashes = false;
        }
        i += 1;
    }
    digits || dashes
}

/// The seven cell characters of the board row `v[a..e]`.
pub fn row_cells(v: &Vec<char>, a: usize, e: usize) -> (t: Vec<char>)
    requires
        a <= e <= v.len(),
        is_board_row(v@.subrange(a as int, e as int)),
    ensures
        t.len() == 7,
        forall|k: int| 0 <= k < 7 ==> tokens(v@.subrange(a as int, e as int))[k] == seq![#[trigger] t[k]],
{
    let ghost l = v@.subrange(a as int, e as int);
    let mut t: Vec<char> = Vec::new();
    let mut i = a;
    proof {
        assert(l.skip(0) =~= l);
        assert(t@.map_values(|c: char| seq![c]) + tokens(l) =~= tokens(l));
    }
    while i < e
        invariant
            a <= i <= e <= v.len(),
            l == v@.subrange(a as int, e as int),
            is_board_row(l),
            t.len() <= 7,
            tokens(l) == t@.map_values(|c: char| seq![c]) + tokens(l.skip(i - a)),
        decreases e - i,
    {
        let ghost x = l.skip(i - a);
        proof {
            assert(x.drop_first() =~= l.skip(i - a + 1));
            assert(x[0] == v[i as int]);
        }
        let c = v[i];
        if !space(c) {
            proof {
                lemma_run_len(x);
                let n = run_len(x);
                assert(tokens(x) == seq![x.take(n as int)] + tokens(x.skip(n as int)));
                let k = t.len() as int;
                assert(tokens(l)[k] == x.take(n as int)) by {
                    assert((t@.map_values(|c: char| seq![c]) + tokens(x))[k] == tokens(x)[0]);
                }
                assert(k < 7) by {
                    if k >= 7 {
                        assert(tokens(l).len() > 7);
                    }
                }
                assert(is_cell_token(tokens(l)[k]));
                assert(tokens(l)[k].len() == 1);
                assert(x.take(n as int).len() == n);
                assert(n == 1);
                assert(x.skip(1) =~= l.skip(i - a + 1));
                assert(x.take(1) =~= seq![c]);
            }
            t.push(c);
            proof {
                let tv = t@;
                let old_t = tv.drop_last();
                assert(tv.map_values(|c: char| seq![c]) =~= old_t.map_values(|c: char| seq![c])
                    + seq![seq![c]]);
                assert(tokens(l) =~= tv.map_values(|c: char| seq![c]) + tokens(l.skip(i - a + 1)));
            }
        }
        i += 1;
    }
    proof {
        assert(l.skip(e - a) =~= Seq::<char>::empty());
        assert(tokens(l) =~= t@.map_values(|c: char| seq![c]));
        assert forall|k: int| 0 <= k < 7 implies tokens(l)[k] == seq![#[trigger] t[k]] by {
            assert(tokens(l)[k] == t@.map_values(|c: char| seq![c])[k]);
        }
    }
    t
}

/// `s` without leading white space.
pub open spec fn trim_start(s: Seq<char>) -> Seq<char>
    decreases s.len(),
{
    if s.len() > 0 && is_space(s[0]) {
        trim_start(s.drop_first())
    } else {
        s
    }
}

/// `s` without trailing white space.
pub open spec fn trim_end(s: Seq<char>) -> Seq<char>
    decreases s.len(),
{
    if s.len() > 0 && is_space(s.last()) {
        trim_end(s.drop_last())
    } else {
        s
    }
}

/// `s` without leading and trailing white space.
pub open spec fn trim(s: Seq<char>) -> Seq<char> {
    trim_end(trim_start(s))
}

proof fn lemma_trim_start(s: Seq<char>, a: int)
    requires
        0 <= a <= s.len(),
        forall|i: int| 0 <= i < a ==> is_space(#[trigger] s[i]),
        a < s.len() ==> !is_space(s[a]),
    ensures
        trim_start(s) == s.skip(a),
    decreases a,
{
    if a == 0 {
        assert(s.skip(0) =~= s);
    } else {
        assert forall|i: int| 0 <= i < a - 1 implies is_space(#[trigger] s.drop_first()[i]) by {
            assert(s.drop_first()[i] == s[i + 1]);
        }
        lemma_trim_start(s.drop_first(), a - 1);
        assert(s.drop_first().skip(a - 1) =~= s.skip(a));
    }
}

proof fn lemma_trim_end(s: Seq<char>, b: int)
    requires
        0 <= b <= s.len(),
        forall|i: int| b <= i < s.len() ==> is_space(#[trigger] s[i]),
        b > 0 ==> !is_space(s[b - 1]),
    ensures
        trim_end(s) == s.take(b),
    decreases s.len() - b,
{
    if b == s.len() {
        assert(s.take(b) =~= s);
    } else {
        assert forall|i: int| b <= i < s.drop_last().len() implies is_space(#[trigger] s.drop_last()[i]) by {
            assert(s.drop_last()[i] == s[i]);
        }
        lemma_trim_end(s.drop_last(), b);
        assert(s.drop_last().take(b) =~= s.take(b));
    }
}

/// The characters of `s` without leading and trailing white space.
pub fn trimmed(s: &str) -> (t: Vec<char>)
    ensures
        t@ == trim(s@),
{
    let v = chars_of(s);
    let mut a: usize = 0;
    while a < v.len() && space(v[a])
        invariant
            a <= v.len(),
            forall|i: int| 0 <= i < a ==> is_space(#[trigger] v[i]),
        decreases v.len() - a,
    {
        a += 1;
    }
    let mut b: usize = v.len();
    while b > a && space(v[b - 1])
        invariant
            a <= b <= v.len(),
            forall|i: int| b <= i < v.len() ==> is_space(#[trigger] v[i]),
        decreases b,
    {
        b -= 1;
    }
    let mut t: Vec<char> = Vec::new();
    let mut i = a;
    while i < b
        invariant
            a <= i <= b <= v.len(),
            t@ == v@.subrange(a as int, i as int),
        decreases b - i,
    {
        t.push(v[i]);
        proof {
            assert(t@ =~= v@.subrange(a as int, i + 1));
        }
        i += 1;
    }
    proof {
        lemma_trim_start(v@, a as int);
        let x = v@.skip(a as int);
        assert forall|k: int| b - a <= k < x.len() implies is_space(#[trigger] x[k]) by {
            assert(x[k] == v[k + a]);
        }
        lemma_trim_end(x, b - a);
        assert(x.take(b - a) =~= v@.subrange(a as int, b as int));
    }
    t
}

/// The value of a string of decimal digits.
pub open spec fn digits_value(d: Seq<char>) -> int
    decreases d.len(),
{
    if d.len() == 0 {
        0
    } else {
        digits_value(d.drop_last()) * 10 + (d.last() as int - '0' as int)
    }
}

/// The unsigned number a text spells: an optional `+` and one or more decimal digits.
pub open spec fn unsigned_value(t: Seq<char>) -> Option<int> {
    let d = digits_part(t);
    if d.len() > 0 && all_digits(d) {
        Some(digits_value(d))
    } else {
        None
    }
}

/// `t` without a leading `+`.
pub open spec fn digits_part(t: Seq<char>) -> Seq<char> {
    if t.len() > 0 && t[0] == '+' {
        t.drop_first()
    } else {
        t
    }
}

pub open spec fn all_digits(d: Seq<char>) -> bool {
    forall|i: int| 0 <= i < d.len() ==> is_digit(#[trigger] d[i])
}

proof fn lemma_digits_value_nonneg(d: Seq<char>)
    requires
        forall|i: int| 0 <= i < d.len() ==> is_digit(#[trigger] d[i]),
    ensures
        digits_value(d) >= 0,
    decreases d.len(),
{
    if d.len() > 0 {
        assert forall|i: int| 0 <= i < d.drop_last().len() implies is_digit(#[trigger] d.drop_last()[i]) by {
            assert(d.drop_last()[i] == d[i]);
        }
        lemma_digits_value_nonneg(d.drop_last());
    }
}

/// The number spelled by `t`, capped at `cap`: `None` when `t` spells no number.
pub fn capped_value(t: &Vec<char>, cap: u64) -> (r: Option<u64>)
    requires
        1 <= cap <= 10,
    ensures
        match unsigned_value(t@) {
            Some(n) => r == Some(if n < cap {
                n as u64
            } else {
                cap
            }),
            None => r is None,
        },
        unsigned_value(t@) matches Some(n) ==> n >= 0,
{
    let mut i: usize = 0;
    if t.len() > 0 && t[0] == '+' {
        i = 1;
    }
    let ghost d = digits_part(t@);
    let start = i;
    proof {
        assert(d =~= t@.skip(start as int));
    }
    if start >= t.len() {
        return None;
    }
    proof {
        if unsigned_value(t@) is Some {
            lemma_digits_value_nonneg(d);
        }
    }
    let mut value: u64 = 0;
    while i < t.len()
        invariant
            start <= i <= t.len(),
            1 <= cap <= 10,
            d == t@.skip(start as int),
            d == digits_part(t@),
            forall|k: int| 0 <= k < i - start ==> is_digit(#[trigger] d[k]),
            value == if digits_value(d.take(i - start)) < cap {
                digits_value(d.take(i - start))
            } else {
                cap as int
            },
        decreases t.len() - i,
    {
        let c = t[i];
        if !('0' <= c && c <= '9') {
            proof {
                assert(!is_digit(d[i - start]));
                assert(!all_digits(d));
            }
            return None;
        }
        let ghost prefix = d.take(i - start);
        let ghost next = d.take(i - start + 1);
        proof {
            assert(next.drop_last() =~= prefix);
            assert(next.last() == c);
            assert forall|k: int| 0 <= k < prefix.len() implies is_digit(#[trigger] prefix[k]) by {
                assert(prefix[k] == d[k]);
            }
            lemma_digits_value_nonneg(prefix);
        }
        let digit = (c as u32 - '0' as u32) as u64;
        if value >= 1 {
            value = cap;
        } else {
            value = if digit < cap {
                digit
            } else {
                cap
            };
        }
        i += 1;
    }
    proof {
        assert(d.take(t.len() - start) =~= d);
        lemma_digits_value_nonneg(d);
    }
    Some(value)
}
} // verus!
