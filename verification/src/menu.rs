use vstd::prelude::*;

use crate::text::{trim, trimmed};

verus! {

/// The text is the single decimal digit `k`.
pub open spec fn is_digit_of(t: Seq<char>, k: int) -> bool {
    t.len() == 1 && t[0] as u32 == '0' as u32 + k
}

/// A menu answer: the trimmed line is exactly one of the digits `1..=options`.
pub fn menu_choice(line: &str, options: u32) -> (r: Option<u32>)
    requires
        options <= 9,
    ensures
        match r {
            Some(k) => 1 <= k <= options && is_digit_of(trim(line@), k as int),
            None => forall|k: int| 1 <= k <= options ==> !is_digit_of(trim(line@), k),
        },
{
    let t = trimmed(line);
    if t.len() != 1 {
        return None;
    }
    let c = t[0];
    let u = c as u32;
    if u >= '1' as u32 && u <= '0' as u32 + options {
        let k = u - '0' as u32;
        Some(k)
    } else {
        None
    }
}

/// A character in lower case, as far as ASCII letters go.
pub open spec fn ascii_lower(c: char) -> char {
    if 'A' <= c <= 'Z' {
        ((c as int) + 32) as char
    } else {
        c
    }
}

/// The line, trimmed, equals `word` but for the case of ASCII letters.
pub open spec fn says(line: Seq<char>, word: Seq<char>) -> bool {
    let t = trim(line);
    t.len() == word.len() && forall|i: int| 0 <= i < t.len() ==> ascii_lower(#[trigger] t[i]) == word[i]
}

fn says_exec(t: &Vec<char>, word: &str) -> (r: bool)
    requires
        word@.len() <= 3,
    ensures
        r == (t@.len() == word@.len() && forall|i: int| 0 <= i < t@.len() ==> ascii_lower(#[trigger] t@[i]) == word@[i]),
{
    let w = crate::text::chars_of(word);
    if t.len() != w.len() {
        return false;
    }
    let mut i: usize = 0;
    while i < t.len()
        invariant
            i <= t.len(),
            t.len() == w.len(),
            w@ == word@,
            forall|k: int| 0 <= k < i ==> ascii_lower(#[trigger] t@[k]) == word@[k],
        decreases t.len() - i,
    {
        let c = t[i];
        let lower = if 'A' <= c && c <= 'Z' {
            ((c as u32) + 32) as u8 as char
        } else {
            c
        };
        proof {
            if 'A' <= c && c <= 'Z' {
                assert(lower == ascii_lower(c));
            }
        }
        if lower != w[i] {
            return false;
        }
        i += 1;
    }
    true
}

/// A yes/no answer: `y` or `yes` is yes, `n` or `no` is no, in any case of letters.
pub fn yes_no(line: &str) -> (r: Option<bool>)
    ensures
        r == if says(line@, "y"@) || says(line@, "yes"@) {
            Some(true)
        } else if says(line@, "n"@) || says(line@, "no"@) {
            Some(false)
        } else {
            None::<bool>
        },
{
    proof {
        reveal_strlit("y");
        reveal_strlit("yes");
        reveal_strlit("n");
        reveal_strlit("no");
    }
    let t = trimmed(line);
    if says_exec(&t, "y") || says_exec(&t, "yes") {
        Some(true)
    } else if says_exec(&t, "n") || says_exec(&t, "no") {
        Some(false)
    } else {
        None
    }
}
} // verus!
