//! Character classification and ASCII case folding, shared by the lexer's
//! scanning rules, the instruction registry's case-insensitive lookup, and
//! the parser's register heuristic.

use vstd::prelude::*;

verus! {

/// An ASCII decimal digit.
pub open spec fn is_digit_char(c: char) -> bool {
    48 <= c as u32 && c as u32 <= 57
}

/// An ASCII letter or decimal digit.
pub open spec fn is_alnum_char(c: char) -> bool {
    is_digit_char(c) || (65 <= c as u32 && c as u32 <= 90) || (97 <= c as u32 && c as u32 <= 122)
}

/// A character that may appear in an identifier: alphanumeric or underscore.
pub open spec fn is_word_char(c: char) -> bool {
    is_alnum_char(c) || c == '_'
}

/// Whitespace that the lexer skips without emitting a token. Newline is not
/// among these: it ends a statement and gets a token of its own.
pub open spec fn is_blank_char(c: char) -> bool {
    c == ' ' || c == '\t' || c == '\r' || c == '\x0b' || c == '\x0c'
}

/// A lower-case ASCII letter.
pub open spec fn is_lower_char(c: char) -> bool {
    c == 'a' || c == 'b' || c == 'c' || c == 'd' || c == 'e' || c == 'f' || c == 'g' || c == 'h'
        || c == 'i' || c == 'j' || c == 'k' || c == 'l' || c == 'm' || c == 'n' || c == 'o'
        || c == 'p' || c == 'q' || c == 'r' || c == 's' || c == 't' || c == 'u' || c == 'v'
        || c == 'w' || c == 'x' || c == 'y' || c == 'z'
}

pub fn char_is_lower(c: char) -> (r: bool)
    ensures
        r == is_lower_char(c),
{
    match c {
        'a' | 'b' | 'c' | 'd' | 'e' | 'f' | 'g' | 'h' | 'i' | 'j' | 'k' | 'l' | 'm' | 'n' | 'o'
            | 'p' | 'q' | 'r' | 's' | 't' | 'u' | 'v' | 'w' | 'x' | 'y' | 'z' => true,
        _ => false,
    }
}

/// ASCII upper-casing of one character; every other character is unchanged.
pub open spec fn upper_char(c: char) -> char {
    if c == 'a' { 'A' } else if c == 'b' { 'B' } else if c == 'c' { 'C' }
    else if c == 'd' { 'D' } else if c == 'e' { 'E' } else if c == 'f' { 'F' }
    else if c == 'g' { 'G' } else if c == 'h' { 'H' } else if c == 'i' { 'I' }
    else if c == 'j' { 'J' } else if c == 'k' { 'K' } else if c == 'l' { 'L' }
    else if c == 'm' { 'M' } else if c == 'n' { 'N' } else if c == 'o' { 'O' }
    else if c == 'p' { 'P' } else if c == 'q' { 'Q' } else if c == 'r' { 'R' }
    else if c == 's' { 'S' } else if c == 't' { 'T' } else if c == 'u' { 'U' }
    else if c == 'v' { 'V' } else if c == 'w' { 'W' } else if c == 'x' { 'X' }
    else if c == 'y' { 'Y' } else if c == 'z' { 'Z' }
    else { c }
}

/// ASCII upper-casing of a character sequence.
pub open spec fn upper(s: Seq<char>) -> Seq<char> {
    s.map_values(|c: char| upper_char(c))
}

pub fn char_is_digit(c: char) -> (r: bool)
    ensures
        r == is_digit_char(c),
{
    let u: u32 = c as u32;
    48 <= u && u <= 57
}

pub fn char_is_alnum(c: char) -> (r: bool)
    ensures
        r == is_alnum_char(c),
{
    let u: u32 = c as u32;
    (48 <= u && u <= 57) || (65 <= u && u <= 90) || (97 <= u && u <= 122)
}

pub fn char_is_word(c: char) -> (r: bool)
    ensures
        r == is_word_char(c),
{
    char_is_alnum(c) || c == '_'
}

pub fn char_is_blank(c: char) -> (r: bool)
    ensures
        r == is_blank_char(c),
{
    c == ' ' || c == '\t' || c == '\r' || c == '\x0b' || c == '\x0c'
}

pub fn char_to_upper(c: char) -> (r: char)
    ensures
        r == upper_char(c),
{
    match c {
        'a' => 'A', 'b' => 'B', 'c' => 'C', 'd' => 'D', 'e' => 'E', 'f' => 'F',
        'g' => 'G', 'h' => 'H', 'i' => 'I', 'j' => 'J', 'k' => 'K', 'l' => 'L',
        'm' => 'M', 'n' => 'N', 'o' => 'O', 'p' => 'P', 'q' => 'Q', 'r' => 'R',
        's' => 'S', 't' => 'T', 'u' => 'U', 'v' => 'V', 'w' => 'W', 'x' => 'X',
        'y' => 'Y', 'z' => 'Z',
        _ => c,
    }
}

/// Appends the ASCII upper-cased form of one lower-case letter to `out`.
fn append_upper_of_lower(out: &mut String, c: char)
    requires
        is_lower_char(c),
    ensures
        final(out)@ == old(out)@.push(upper_char(c)),
{
    let piece: &str = match c {
        'a' => "A", 'b' => "B", 'c' => "C", 'd' => "D", 'e' => "E", 'f' => "F",
        'g' => "G", 'h' => "H", 'i' => "I", 'j' => "J", 'k' => "K", 'l' => "L",
        'm' => "M", 'n' => "N", 'o' => "O", 'p' => "P", 'q' => "Q", 'r' => "R",
        's' => "S", 't' => "T", 'u' => "U", 'v' => "V", 'w' => "W", 'x' => "X",
        'y' => "Y", 'z' => "Z",
        _ => "",
    };
    proof {
        reveal_strlit("A"); reveal_strlit("B"); reveal_strlit("C"); reveal_strlit("D");
        reveal_strlit("E"); reveal_strlit("F"); reveal_strlit("G"); reveal_strlit("H");
        reveal_strlit("I"); reveal_strlit("J"); reveal_strlit("K"); reveal_strlit("L");
        reveal_strlit("M"); reveal_strlit("N"); reveal_strlit("O"); reveal_strlit("P");
        reveal_strlit("Q"); reveal_strlit("R"); reveal_strlit("S"); reveal_strlit("T");
        reveal_strlit("U"); reveal_strlit("V"); reveal_strlit("W"); reveal_strlit("X");
        reveal_strlit("Y"); reveal_strlit("Z");
        assert(piece@ =~= seq![upper_char(c)]);
    }
    out.append(piece);
    proof {
        assert(out@ =~= old(out)@.push(upper_char(c)));
    }
}

/// ASCII upper-casing of a string; characters outside `a`..`z` are kept.
pub fn str_to_upper(s: &str) -> (r: String)
    ensures
        r@ == upper(s@),
{
    let n: usize = s.unicode_len();
    let mut out = String::new();
    let mut i: usize = 0;
    while i < n
        invariant
            n == s@.len(),
            i <= n,
            out@ == upper(s@).take(i as int),
        decreases n - i,
    {
        let c: char = s.get_char(i);
        if char_is_lower(c) {
            append_upper_of_lower(&mut out, c);
        } else {
            let piece: &str = s.substring_char(i, i + 1);
            proof {
                assert(piece@ =~= seq![c]);
                assert(upper_char(c) == c);
            }
            out.append(piece);
        }
        i = i + 1;
        proof {
            assert(out@ =~= upper(s@).take(i as int));
        }
    }
    proof {
        assert(upper(s@).take(n as int) =~= upper(s@));
    }
    out
}

/// Case-insensitive (ASCII) equality of two strings.
pub fn str_eq_ignore_case(a: &str, b: &str) -> (r: bool)
    ensures
        r == (upper(a@) == upper(b@)),
{
    let na: usize = a.unicode_len();
    let nb: usize = b.unicode_len();
    if na != nb {
        proof {
            assert(upper(a@).len() != upper(b@).len());
        }
        return false;
    }
    let mut i: usize = 0;
    while i < na
        invariant
            na == a@.len(),
            na == b@.len(),
            i <= na,
            forall|j: int| 0 <= j < i ==> upper(a@)[j] == upper(b@)[j],
        decreases na - i,
    {
        let ca: char = char_to_upper(a.get_char(i));
        let cb: char = char_to_upper(b.get_char(i));
        if ca != cb {
            proof {
                assert(upper(a@)[i as int] != upper(b@)[i as int]);
            }
            return false;
        }
        i = i + 1;
    }
    proof {
        assert(upper(a@) =~= upper(b@));
    }
    true
}

} // verus!
