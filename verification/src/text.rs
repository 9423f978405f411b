//! Character and string helpers shared by the parser, the environment and
//! the renderer: newline stripping, decimal digit parsing and rendering,
//! and string equality.

use vstd::prelude::*;

verus! {

/// True of the characters removed by `trim_whitespace`.
pub open spec fn is_line_break(c: char) -> bool {
    c == '\r' || c == '\n'
}

/// `s` with every `'\r'` and `'\n'` removed, in order.
pub open spec fn strip_breaks(s: Seq<char>) -> Seq<char>
    decreases s.len(),
{
    if s.len() == 0 {
        Seq::empty()
    } else if is_line_break(s.last()) {
        strip_breaks(s.drop_last())
    } else {
        strip_breaks(s.drop_last()).push(s.last())
    }
}

/// Remove every `\r` and `\n` character from a string.
pub fn trim_whitespace(s: &str) -> (ret: String)
    ensures
        ret@ == strip_breaks(s@),
{
    let mut ret = String::new();
    let n = s.unicode_len();
    let mut i: usize = 0;
    while i < n
        invariant
            n == s@.len(),
            i <= n,
            ret@ == strip_breaks(s@.take(i as int)),
        decreases n - i,
    {
        let c = s.get_char(i);
        if c != '\r' && c != '\n' {
            let piece = s.substring_char(i, i + 1);
            ret.append(piece);
            proof {
                assert(piece@ == seq![s@[i as int]]);
            }
        }
        proof {
            assert(s@.take(i + 1 as int).drop_last() =~= s@.take(i as int));
            assert(s@.take(i + 1 as int).last() == s@[i as int]);
        }
        i = i + 1;
    }
    proof {
        assert(s@.take(n as int) =~= s@);
    }
    ret
}

/// True of an ASCII decimal digit.
pub open spec fn is_digit(c: char) -> bool {
    '0' <= c && c <= '9'
}

/// The numeric value of a digit character.
pub open spec fn digit_val(c: char) -> nat
    recommends
        is_digit(c),
{
    (c as nat - '0' as nat) as nat
}

/// True of a non-empty sequence made of decimal digits only.
pub open spec fn is_digits(s: Seq<char>) -> bool {
    s.len() > 0 && forall|i: int| 0 <= i < s.len() ==> is_digit(#[trigger] s[i])
}

/// The number a digit sequence denotes in base ten.
pub open spec fn digits_value(s: Seq<char>) -> nat
    decreases s.len(),
{
    if s.len() == 0 {
        0
    } else {
        digits_value(s.drop_last()) * 10 + digit_val(s.last())
    }
}

/// Appending digits never lowers the value: the prefix's value bounds the
/// whole from below.
pub proof fn lemma_digits_value_prefix(s: Seq<char>, i: int)
    requires
        0 <= i <= s.len(),
    ensures
        digits_value(s.take(i)) <= digits_value(s),
    decreases s.len() - i,
{
    if i < s.len() {
        assert(s.take(i + 1).drop_last() =~= s.take(i));
        assert(digits_value(s.take(i)) <= digits_value(s.take(i)) * 10 + digit_val(
            s.take(i + 1).last(),
        ));
        lemma_digits_value_prefix(s, i + 1);
    } else {
        assert(s.take(i) =~= s);
    }
}

/// Read a non-empty, all-digit string as a number.  `None` when the string
/// is empty, holds a non-digit, or denotes a number above `usize::MAX`.
pub fn parse_digits(s: &str) -> (r: Option<usize>)
    ensures
        match r {
            Some(v) => is_digits(s@) && v == digits_value(s@),
            None => !is_digits(s@) || digits_value(s@) > usize::MAX,
        },
{
    let n = s.unicode_len();
    if n == 0 {
        return None;
    }
    let mut acc: usize = 0;
    let mut i: usize = 0;
    while i < n
        invariant
            n == s@.len(),
            0 < n <= usize::MAX,
            i <= n,
            forall|j: int| 0 <= j < i ==> is_digit(#[trigger] s@[j]),
            acc == digits_value(s@.take(i as int)),
        decreases n - i,
    {
        let c = s.get_char(i);
        if c < '0' || c > '9' {
            return None;
        }
        let d: usize = (c as u32 - '0' as u32) as usize;
        let wide: u128 = (acc as u128) * 10 + (d as u128);
        proof {
            assert(s@.take(i + 1 as int).drop_last() =~= s@.take(i as int));
        }
        if wide > usize::MAX as u128 {
            proof {
                lemma_digits_value_prefix(s@, i + 1 as int);
            }
            return None;
        }
        acc = wide as usize;
        i = i + 1;
    }
    proof {
        assert(s@.take(n as int) =~= s@);
    }
    Some(acc)
}

/// The decimal rendering of a number, most significant digit first.
pub open spec fn dec_rep(n: nat) -> Seq<char>
    decreases n,
{
    if n < 10 {
        seq![dec_digit(n)]
    } else {
        dec_rep(n / 10).push(dec_digit(n % 10))
    }
}

/// The digit character for a value below ten.
pub open spec fn dec_digit(n: nat) -> char {
    if n == 0 {
        '0'
    } else if n == 1 {
        '1'
    } else if n == 2 {
        '2'
    } else if n == 3 {
        '3'
    } else if n == 4 {
        '4'
    } else if n == 5 {
        '5'
    } else if n == 6 {
        '6'
    } else if n == 7 {
        '7'
    } else if n == 8 {
        '8'
    } else {
        '9'
    }
}

/// The string of one digit character, for a value below ten.
fn dec_digit_str(n: usize) -> (r: String)
    requires
        n < 10,
    ensures
        r@ == seq![dec_digit(n as nat)],
{
    let digits = "0123456789";
    proof {
        reveal_strlit("0123456789");
    }
    let r = digits.substring_char(n, n + 1).to_owned();
    proof {
        assert(r@ =~= seq![dec_digit(n as nat)]);
    }
    r
}

/// Render a number in decimal.
pub fn usize_to_string(n: usize) -> (r: String)
    ensures
        r@ == dec_rep(n as nat),
    decreases n,
{
    if n < 10 {
        dec_digit_str(n)
    } else {
        let mut r = usize_to_string(n / 10);
        let last = dec_digit_str(n % 10);
        r.append(last.as_str());
        proof {
            assert(r@ =~= dec_rep(n as nat));
        }
        r
    }
}

/// Compare two strings character by character.
pub fn str_eq(a: &str, b: &str) -> (r: bool)
    ensures
        r == (a@ == b@),
{
    let na = a.unicode_len();
    let nb = b.unicode_len();
    if na != nb {
        proof {
            assert(a@ != b@) by {
                if a@ == b@ {
                    assert(a@.len() == b@.len());
                }
            }
        }
        return false;
    }
    let mut i: usize = 0;
    while i < na
        invariant
            na == a@.len(),
            nb == b@.len(),
            na == nb,
            i <= na,
            forall|j: int| 0 <= j < i ==> a@[j] == b@[j],
        decreases na - i,
    {
        if a.get_char(i) != b.get_char(i) {
            return false;
        }
        i = i + 1;
    }
    proof {
        assert(a@ =~= b@);
    }
    true
}

/// `s` with every `':'` replaced by `", "`: the package's colon-separated
/// author list rendered with comma separators.
pub open spec fn join_authors(s: Seq<char>) -> Seq<char>
    decreases s.len(),
{
    if s.len() == 0 {
        Seq::empty()
    } else if s.last() == ':' {
        join_authors(s.drop_last()) + ", "@
    } else {
        join_authors(s.drop_last()).push(s.last())
    }
}

/// Render a colon-separated list of author names with `", "` between names.
pub fn format_authors(s: &str) -> (ret: String)
    ensures
        ret@ == join_authors(s@),
{
    let mut ret = String::new();
    let n = s.unicode_len();
    let mut i: usize = 0;
    while i < n
        invariant
            n == s@.len(),
            i <= n,
            ret@ == join_authors(s@.take(i as int)),
        decreases n - i,
    {
        let c = s.get_char(i);
        if c == ':' {
            ret.append(", ");
        } else {
            let piece = s.substring_char(i, i + 1);
            ret.append(piece);
            proof {
                assert(piece@ == seq![s@[i as int]]);
            }
        }
        proof {
            assert(s@.take(i + 1 as int).drop_last() =~= s@.take(i as int));
            assert(s@.take(i + 1 as int).last() == s@[i as int]);
        }
        i = i + 1;
    }
    proof {
        assert(s@.take(n as int) =~= s@);
    }
    ret
}

} // verus!
