//! The lexical analyzer: walks the source text once, classifying characters
//! into positioned tokens, and decodes `#` numeric literals (decimal, `0x`
//! hexadecimal, `0b` binary) to their decimal rendering at lex time.

use vstd::prelude::*;

use crate::text::{is_alnum_char, is_blank_char, is_digit_char, is_word_char};

verus! {

/// A source position: `line` starts at 1 and grows by one for each newline
/// token emitted; `column` counts every consumed character from the start of
/// the pass and never decreases.
#[derive(Debug, Clone, Copy, PartialEq, Eq)]
pub struct Position {
    pub line: usize,
    pub column: usize,
}

/// The classification a token can have.
#[derive(Debug, Clone, Copy, PartialEq, Eq, Structural)]
pub enum TokenType {
    Comma,
    Label,
    Identifier,
    Lbracket,
    Rbracket,
    Number,
    ExclamationMark,
    Directive,
    Colon,
    NewLine,
}

/// Mathematical model of a token: its kind, its text, and the line and
/// column of its first character.
pub ghost struct TokenView {
    pub kind: TokenType,
    pub text: Seq<char>,
    pub line: nat,
    pub col: nat,
}

/// One token: kind, literal text (empty for punctuation and newline), and the
/// position of its first character in the source.
#[derive(Debug, PartialEq)]
pub struct Token {
    pub token_type: TokenType,
    pub value: String,
    pub position: Position,
}

impl View for Token {
    type V = TokenView;

    open spec fn view(&self) -> TokenView {
        TokenView {
            kind: self.token_type,
            text: self.value@,
            line: self.position.line as nat,
            col: self.position.column as nat,
        }
    }
}

/// Mathematical model of a lexical error.
pub ghost enum LexErrView {
    UnexpectedCharacter { character: char, line: nat, col: nat },
    InvalidNumber { literal: Seq<char>, line: nat, col: nat },
}

/// A lexical error: an unexpected character, or a `#` literal that does not
/// decode. Both carry the position of the offending character.
#[derive(Debug, PartialEq)]
pub enum LexError {
    UnexpectedCharacter { character: char, position: Position },
    InvalidNumber { literal: String, position: Position },
}

impl View for LexError {
    type V = LexErrView;

    open spec fn view(&self) -> LexErrView {
        match self {
            LexError::UnexpectedCharacter { character, position } => LexErrView::UnexpectedCharacter {
                character: *character,
                line: position.line as nat,
                col: position.column as nat,
            },
            LexError::InvalidNumber { literal, position } => LexErrView::InvalidNumber {
                literal: literal@,
                line: position.line as nat,
                col: position.column as nat,
            },
        }
    }
}

/// How many identifier characters stand at `i`.
pub open spec fn word_len(s: Seq<char>, i: nat) -> nat
    decreases s.len() - i,
{
    if i < s.len() && is_word_char(s[i as int]) {
        1 + word_len(s, i + 1)
    } else {
        0
    }
}

/// How many alphanumeric characters stand at `i`.
pub open spec fn alnum_len(s: Seq<char>, i: nat) -> nat
    decreases s.len() - i,
{
    if i < s.len() && is_alnum_char(s[i as int]) {
        1 + alnum_len(s, i + 1)
    } else {
        0
    }
}

/// How many characters a comment starting at `i` consumes: everything up to
/// and including the next newline, or to the end of the input.
pub open spec fn comment_len(s: Seq<char>, i: nat) -> nat
    decreases s.len() - i,
{
    if i >= s.len() {
        0
    } else if s[i as int] == '\n' {
        1
    } else {
        1 + comment_len(s, i + 1)
    }
}

pub proof fn lemma_word_len_bound(s: Seq<char>, i: nat)
    requires
        i <= s.len(),
    ensures
        i + word_len(s, i) <= s.len(),
    decreases s.len() - i,
{
    if i < s.len() && is_word_char(s[i as int]) {
        lemma_word_len_bound(s, i + 1);
    }
}

pub proof fn lemma_alnum_len_bound(s: Seq<char>, i: nat)
    requires
        i <= s.len(),
    ensures
        i + alnum_len(s, i) <= s.len(),
    decreases s.len() - i,
{
    if i < s.len() && is_alnum_char(s[i as int]) {
        lemma_alnum_len_bound(s, i + 1);
    }
}

pub proof fn lemma_comment_len_bound(s: Seq<char>, i: nat)
    requires
        i <= s.len(),
    ensures
        i + comment_len(s, i) <= s.len(),
    decreases s.len() - i,
{
    if i < s.len() && s[i as int] != '\n' {
        lemma_comment_len_bound(s, i + 1);
    }
}

/// The value of one digit character (hex letters included).
pub open spec fn digit_val(c: char) -> nat {
    let u = c as u32;
    if 48 <= u && u <= 57 {
        (u - 48) as nat
    } else if 65 <= u && u <= 70 {
        (u - 55) as nat
    } else if 97 <= u && u <= 102 {
        (u - 87) as nat
    } else {
        0
    }
}

/// Whether `c` is a digit of the given base (2, 10 or 16).
pub open spec fn is_digit_of(c: char, base: nat) -> bool {
    let u = c as u32;
    if base == 16 {
        (48 <= u && u <= 57) || (65 <= u && u <= 70) || (97 <= u && u <= 102)
    } else {
        is_digit_char(c) && digit_val(c) < base
    }
}

/// A non-empty digit string whose characters all fit the base.
pub open spec fn digits_valid(s: Seq<char>, base: nat) -> bool {
    s.len() > 0 && forall|j: int| 0 <= j < s.len() ==> is_digit_of(#[trigger] s[j], base)
}

/// The numeric value of a digit string read most-significant first.
pub open spec fn digits_value(s: Seq<char>, base: nat) -> nat
    decreases s.len(),
{
    if s.len() == 0 {
        0
    } else {
        digits_value(s.drop_last(), base) * base + digit_val(s.last())
    }
}

/// The base a raw `#` literal selects: `0x` means 16, `0b` means 2,
/// anything else decimal.
pub open spec fn literal_base(s: Seq<char>) -> nat {
    if s.len() >= 2 && s[0] == '0' && s[1] == 'x' {
        16
    } else if s.len() >= 2 && s[0] == '0' && s[1] == 'b' {
        2
    } else {
        10
    }
}

/// The digit characters of a raw `#` literal: everything after a base prefix.
pub open spec fn literal_digits(s: Seq<char>) -> Seq<char> {
    if literal_base(s) == 10 {
        s
    } else {
        s.skip(2)
    }
}

/// Whether a raw `#` literal decodes: its digits fit its base and the value
/// fits the signed 64-bit range.
pub open spec fn literal_ok(s: Seq<char>) -> bool {
    digits_valid(literal_digits(s), literal_base(s)) && digits_value(
        literal_digits(s),
        literal_base(s),
    ) <= i64::MAX as nat
}

/// The decoded value of a raw `#` literal.
pub open spec fn literal_value(s: Seq<char>) -> nat {
    digits_value(literal_digits(s), literal_base(s))
}

/// The decimal digit character for `d` < 10.
pub open spec fn dec_digit_char(d: nat) -> char {
    if d == 0 { '0' } else if d == 1 { '1' } else if d == 2 { '2' } else if d == 3 { '3' }
    else if d == 4 { '4' } else if d == 5 { '5' } else if d == 6 { '6' } else if d == 7 { '7' }
    else if d == 8 { '8' } else { '9' }
}

/// The decimal rendering of `n`, without sign or leading zeros.
pub open spec fn dec_digits(n: nat) -> Seq<char>
    decreases n,
{
    if n < 10 {
        seq![dec_digit_char(n)]
    } else {
        dec_digits(n / 10).push(dec_digit_char(n % 10))
    }
}

proof fn lemma_digits_value_push(s: Seq<char>, c: char, base: nat)
    ensures
        digits_value(s.push(c), base) == digits_value(s, base) * base + digit_val(c),
{
    assert(s.push(c).drop_last() =~= s);
    assert(s.push(c).last() == c);
}

/// Reading more digits never shrinks the value (for a base of at least 1).
proof fn lemma_digits_value_prefix(s: Seq<char>, base: nat, m: int)
    requires
        base >= 1,
        0 <= m <= s.len(),
    ensures
        digits_value(s.take(m), base) <= digits_value(s, base),
    decreases s.len(),
{
    if m < s.len() {
        lemma_digits_value_prefix(s.drop_last(), base, m);
        assert(s.drop_last().take(m) =~= s.take(m));
        assert(digits_value(s.drop_last(), base) * base >= digits_value(s.drop_last(), base))
            by {
            vstd::arithmetic::mul::lemma_mul_inequality(
                1,
                base as int,
                digits_value(s.drop_last(), base) as int,
            );
        }
    } else {
        assert(s.take(m) =~= s);
    }
}

/// Decoding a decimal rendering gives back the rendered value: the digits are
/// valid base-10 digits and their value is the number that was rendered.
pub proof fn lemma_decimal_render_roundtrip(n: nat)
    ensures
        digits_valid(dec_digits(n), 10),
        digits_value(dec_digits(n), 10) == n,
    decreases n,
{
    if n < 10 {
        assert(dec_digits(n) == seq![dec_digit_char(n)]);
        assert(seq![dec_digit_char(n)].drop_last() =~= Seq::<char>::empty());
        assert(digits_value(Seq::<char>::empty(), 10) == 0);
        assert(seq![dec_digit_char(n)].last() == dec_digit_char(n));
        assert(digits_value(seq![dec_digit_char(n)], 10) == digit_val(dec_digit_char(n)));
        assert(digit_val(dec_digit_char(n)) == n);
        assert(is_digit_of(dec_digit_char(n), 10));
    } else {
        lemma_decimal_render_roundtrip(n / 10);
        lemma_digits_value_push(dec_digits(n / 10), dec_digit_char(n % 10), 10);
        assert(digit_val(dec_digit_char(n % 10)) == n % 10);
        assert(is_digit_of(dec_digit_char(n % 10), 10));
        assert(digits_value(dec_digits(n), 10) == (n / 10) * 10 + n % 10);
        assert(forall|j: int| 0 <= j < dec_digits(n).len() ==> is_digit_of(
            #[trigger] dec_digits(n)[j],
            10,
        ));
    }
}

/// The value of one digit character in the given base, or `None` if the
/// character is no digit of that base.
fn char_digit_val(c: char, base: u64) -> (r: Option<u8>)
    requires
        base == 2 || base == 10 || base == 16,
    ensures
        r == if is_digit_of(c, base as nat) {
            Some(digit_val(c) as u8)
        } else {
            None::<u8>
        },
{
    let u: u32 = c as u32;
    if 48 <= u && u <= 57 {
        let d: u8 = (u - 48) as u8;
        if (d as u64) < base {
            Some(d)
        } else {
            None
        }
    } else if base == 16 && 65 <= u && u <= 70 {
        Some((u - 55) as u8)
    } else if base == 16 && 97 <= u && u <= 102 {
        Some((u - 87) as u8)
    } else {
        None
    }
}

/// Decodes the digits of `s` from `start` on in the given base, if they are
/// non-empty, all valid, and their value fits `i64`.
fn parse_radix(s: &str, start: usize, base: u64) -> (r: Option<i64>)
    requires
        start <= s@.len(),
        base == 2 || base == 10 || base == 16,
    ensures
        r == if digits_valid(s@.skip(start as int), base as nat) && digits_value(
            s@.skip(start as int),
            base as nat,
        ) <= i64::MAX as nat {
            Some(digits_value(s@.skip(start as int), base as nat) as i64)
        } else {
            None::<i64>
        },
{
    let ghost ds: Seq<char> = s@.skip(start as int);
    let n: usize = s.unicode_len();
    if start == n {
        proof {
            assert(ds.len() == 0);
        }
        return None;
    }
    let mut val: u64 = 0;
    let mut j: usize = start;
    while j < n
        invariant
            n == s@.len(),
            start <= j <= n,
            ds == s@.skip(start as int),
            base == 2 || base == 10 || base == 16,
            val <= i64::MAX as u64,
            val as nat == digits_value(ds.take(j - start), base as nat),
            forall|k: int| 0 <= k < j - start ==> is_digit_of(#[trigger] ds[k], base as nat),
        decreases n - j,
    {
        let c: char = s.get_char(j);
        proof {
            assert(ds[j - start] == s@[j as int]);
        }
        let d: u8 = match char_digit_val(c, base) {
            Some(d) => d,
            None => {
                return None;
            },
        };
        let wide: u128 = (val as u128) * (base as u128) + (d as u128);
        proof {
            if base == 2 {
                assert((val as u128) * (base as u128) == (val as u128) * 2);
            } else if base == 10 {
                assert((val as u128) * (base as u128) == (val as u128) * 10);
            } else {
                assert((val as u128) * (base as u128) == (val as u128) * 16);
            }
            assert(ds.take(j - start + 1) =~= ds.take(j - start).push(ds[j - start]));
            lemma_digits_value_push(ds.take(j - start), ds[j - start], base as nat);
            assert(wide as nat == digits_value(ds.take(j - start + 1), base as nat));
        }
        if wide > i64::MAX as u64 as u128 {
            proof {
                lemma_digits_value_prefix(ds, base as nat, j - start + 1);
                assert(ds.take(ds.len() as int) =~= ds);
                assert(digits_value(ds, base as nat) > i64::MAX as nat);
            }
            return None;
        }
        val = wide as u64;
        j = j + 1;
    }
    proof {
        assert(ds.take(n - start) =~= ds);
        assert(digits_valid(ds, base as nat));
    }
    Some(val as i64)
}

/// Decodes a raw numeric literal (the text after `#`): a `0x` prefix selects
/// base 16, `0b` base 2, anything else base 10. `None` when the digits are
/// empty or invalid, or the value exceeds the signed 64-bit range.
pub fn get_number_as_int(number: &str) -> (r: Option<i64>)
    ensures
        r == if literal_ok(number@) {
            Some(literal_value(number@) as i64)
        } else {
            None::<i64>
        },
{
    let n: usize = number.unicode_len();
    let mut start: usize = 0;
    let mut base: u64 = 10;
    if n >= 2 && number.get_char(0) == '0' {
        let c1: char = number.get_char(1);
        if c1 == 'x' {
            start = 2;
            base = 16;
        } else if c1 == 'b' {
            start = 2;
            base = 2;
        }
    }
    proof {
        assert(literal_base(number@) == base as nat);
        if base == 10 {
            assert(number@.skip(0) =~= number@);
        }
        assert(literal_digits(number@) == number@.skip(start as int));
    }
    parse_radix(number, start, base)
}

/// Appends the decimal digit character for `d` < 10 to `out`.
fn append_dec_digit(out: &mut String, d: u64)
    requires
        d < 10,
    ensures
        final(out)@ == old(out)@.push(dec_digit_char(d as nat)),
{
    let piece: &str = match d {
        0 => "0", 1 => "1", 2 => "2", 3 => "3", 4 => "4",
        5 => "5", 6 => "6", 7 => "7", 8 => "8", _ => "9",
    };
    proof {
        reveal_strlit("0"); reveal_strlit("1"); reveal_strlit("2"); reveal_strlit("3");
        reveal_strlit("4"); reveal_strlit("5"); reveal_strlit("6"); reveal_strlit("7");
        reveal_strlit("8"); reveal_strlit("9");
        assert(piece@ =~= seq![dec_digit_char(d as nat)]);
    }
    out.append(piece);
    proof {
        assert(out@ =~= old(out)@.push(dec_digit_char(d as nat)));
    }
}

/// Renders `n` in decimal, matching the mathematical rendering `dec_digits`.
pub fn to_dec_string(n: u64) -> (s: String)
    ensures
        s@ == dec_digits(n as nat),
{
    let mut rev: Vec<u64> = Vec::new();
    let mut m: u64 = n;
    rev.push(m % 10);
    m = m / 10;
    proof {
        assert(rev_chars(rev@) =~= seq![dec_digit_char((n % 10) as nat)]);
        if m > 0 {
            assert(dec_digits(n as nat) == dec_digits((n as nat) / 10).push(
                dec_digit_char((n as nat) % 10),
            ));
            assert(dec_digits((n as nat) / 10).push(dec_digit_char((n as nat) % 10))
                =~= dec_digits(m as nat) + rev_chars(rev@));
        } else {
            assert(dec_digits(n as nat) =~= rev_chars(rev@));
        }
    }
    while m > 0
        invariant
            rev@.len() >= 1,
            forall|k: int| 0 <= k < rev@.len() ==> #[trigger] rev@[k] < 10,
            dec_digits(n as nat) == if m > 0 {
                dec_digits(m as nat) + rev_chars(rev@)
            } else {
                rev_chars(rev@)
            },
        decreases m,
    {
        let ghost old_rev = rev@;
        let ghost old_m: u64 = m;
        let d: u64 = m % 10;
        rev.push(d);
        m = m / 10;
        proof {
            assert(rev_chars(rev@) =~= seq![dec_digit_char(d as nat)] + rev_chars(old_rev));
            if m > 0 {
                assert(dec_digits(old_m as nat) == dec_digits((old_m as nat) / 10).push(
                    dec_digit_char((old_m as nat) % 10),
                ));
                assert(dec_digits(m as nat).push(dec_digit_char(d as nat)) + rev_chars(old_rev)
                    =~= dec_digits(m as nat) + rev_chars(rev@));
            } else {
                assert(dec_digits(old_m as nat) == seq![dec_digit_char((old_m as nat) % 10)]);
                assert((old_m as nat) % 10 == d as nat);
                assert(seq![dec_digit_char(d as nat)] + rev_chars(old_rev) =~= rev_chars(rev@));
            }
        }
    }
    let mut out = String::new();
    let mut i: usize = rev.len();
    proof {
        assert(out@ =~= rev_chars(rev@).take(0));
    }
    while i > 0
        invariant
            i <= rev@.len(),
            forall|k: int| 0 <= k < rev@.len() ==> #[trigger] rev@[k] < 10,
            dec_digits(n as nat) == rev_chars(rev@),
            out@ == rev_chars(rev@).take(rev@.len() - i),
        decreases i,
    {
        i = i - 1;
        let d: u64 = rev[i];
        append_dec_digit(&mut out, d);
        proof {
            assert(out@ =~= rev_chars(rev@).take(rev@.len() - i));
        }
    }
    proof {
        assert(rev_chars(rev@).take(rev@.len() as int) =~= rev_chars(rev@));
    }
    out
}

/// The digit characters of `rev` read back to front.
spec fn rev_chars(rev: Seq<u64>) -> Seq<char> {
    Seq::new(rev.len(), |i: int| dec_digit_char(rev[rev.len() - 1 - i] as nat))
}

/// Joins one token onto the outcome of lexing the rest of the input.
pub open spec fn cons_token(t: TokenView, rest: Result<Seq<TokenView>, LexErrView>) -> Result<
    Seq<TokenView>,
    LexErrView,
> {
    match rest {
        Ok(ts) => Ok(seq![t] + ts),
        Err(e) => Err(e),
    }
}

/// The lexing of `s` from position `i` on, with the line counter at `line`;
/// the column of a position is the index of its character. One token rule per
/// branch: comments are discarded through their newline; a newline gets a
/// token and bumps the line; blanks are skipped; a word character that is no
/// digit starts an identifier; `.` starts a directive; `#` starts a numeric
/// literal rendered in decimal; `,` and `:` stand alone; anything else is an
/// unexpected character.
pub open spec fn spec_lex(s: Seq<char>, i: nat, line: nat) -> Result<Seq<TokenView>, LexErrView>
    decreases s.len() - i,
        via spec_lex_decreases
{
    if i >= s.len() {
        Ok(seq![])
    } else {
        let c = s[i as int];
        if c == ';' {
            spec_lex(s, i + comment_len(s, i), line)
        } else if c == '\n' {
            cons_token(
                TokenView { kind: TokenType::NewLine, text: Seq::empty(), line, col: i },
                spec_lex(s, i + 1, line + 1),
            )
        } else if is_blank_char(c) {
            spec_lex(s, i + 1, line)
        } else if is_word_char(c) && !is_digit_char(c) {
            let k = word_len(s, i);
            cons_token(
                TokenView {
                    kind: TokenType::Identifier,
                    text: s.subrange(i as int, (i + k) as int),
                    line,
                    col: i,
                },
                spec_lex(s, i + k, line),
            )
        } else if c == '.' {
            let k = word_len(s, i + 1);
            cons_token(
                TokenView {
                    kind: TokenType::Directive,
                    text: s.subrange((i + 1) as int, (i + 1 + k) as int),
                    line,
                    col: i,
                },
                spec_lex(s, i + 1 + k, line),
            )
        } else if c == '#' {
            let k = alnum_len(s, i + 1);
            let raw = s.subrange((i + 1) as int, (i + 1 + k) as int);
            if literal_ok(raw) {
                cons_token(
                    TokenView {
                        kind: TokenType::Number,
                        text: dec_digits(literal_value(raw)),
                        line,
                        col: i,
                    },
                    spec_lex(s, i + 1 + k, line),
                )
            } else {
                Err(LexErrView::InvalidNumber { literal: raw, line, col: i })
            }
        } else if c == ',' {
            cons_token(
                TokenView { kind: TokenType::Comma, text: Seq::empty(), line, col: i },
                spec_lex(s, i + 1, line),
            )
        } else if c == ':' {
            cons_token(
                TokenView { kind: TokenType::Colon, text: Seq::empty(), line, col: i },
                spec_lex(s, i + 1, line),
            )
        } else {
            Err(LexErrView::UnexpectedCharacter { character: c, line, col: i })
        }
    }
}

#[via_fn]
proof fn spec_lex_decreases(s: Seq<char>, i: nat, line: nat) {
    if i < s.len() {
        lemma_comment_len_bound(s, i);
        lemma_word_len_bound(s, i);
        lemma_word_len_bound(s, i + 1);
        lemma_alnum_len_bound(s, i + 1);
    }
}

/// Joins already-built tokens onto the outcome of lexing the rest.
spec fn lex_join(done: Seq<TokenView>, rest: Result<Seq<TokenView>, LexErrView>) -> Result<
    Seq<TokenView>,
    LexErrView,
> {
    match rest {
        Ok(ts) => Ok(done + ts),
        Err(e) => Err(e),
    }
}

proof fn lemma_lex_join_push(done: Seq<TokenView>, t: TokenView, rest: Result<Seq<TokenView>, LexErrView>)
    ensures
        lex_join(done, cons_token(t, rest)) == lex_join(done.push(t), rest),
{
    match rest {
        Ok(ts) => {
            assert(done + (seq![t] + ts) =~= done.push(t) + ts);
        },
        Err(_) => {},
    }
}

/// Lines and columns never decrease along a token sequence.
pub open spec fn positions_ordered(ts: Seq<TokenView>) -> bool {
    forall|a: int, b: int|
        0 <= a <= b < ts.len() ==> #[trigger] ts[a].line <= #[trigger] ts[b].line && ts[a].col
            <= ts[b].col
}

proof fn lemma_cons_positions(
    t: TokenView,
    rest: Result<Seq<TokenView>, LexErrView>,
    line: nat,
    i: nat,
    line2: nat,
    i2: nat,
)
    requires
        t.line == line,
        t.col == i,
        line <= line2,
        i <= i2,
        match rest {
            Ok(ts) => positions_ordered(ts) && forall|k: int|
                0 <= k < ts.len() ==> (#[trigger] ts[k]).line >= line2 && ts[k].col >= i2,
            Err(_) => true,
        },
    ensures
        match cons_token(t, rest) {
            Ok(ts) => positions_ordered(ts) && forall|k: int|
                0 <= k < ts.len() ==> (#[trigger] ts[k]).line >= line && ts[k].col >= i,
            Err(_) => true,
        },
{
    match rest {
        Ok(ts) => {
            let all = seq![t] + ts;
            assert(all[0] == t);
            assert(forall|k: int| 0 < k < all.len() ==> #[trigger] all[k] == ts[k - 1]);
            assert forall|a: int, b: int| 0 <= a <= b < all.len() implies #[trigger] all[a].line
                <= #[trigger] all[b].line && all[a].col <= all[b].col by {
                if 0 < a {
                    assert(all[a] == ts[a - 1]);
                    assert(all[b] == ts[b - 1]);
                } else if 0 < b {
                    assert(all[b] == ts[b - 1]);
                }
            }
        },
        Err(_) => {},
    }
}

/// The position tracker advances monotonically: in the token sequence of one
/// pass, lines and columns never decrease, and every token stands at or after
/// the pass's starting position.
pub proof fn lemma_lex_positions_monotone(s: Seq<char>, i: nat, line: nat)
    ensures
        match spec_lex(s, i, line) {
            Ok(ts) => positions_ordered(ts) && forall|k: int|
                0 <= k < ts.len() ==> (#[trigger] ts[k]).line >= line && ts[k].col >= i,
            Err(_) => true,
        },
    decreases s.len() - i,
{
    if i < s.len() {
        let c = s[i as int];
        if c == ';' {
            lemma_comment_len_bound(s, i);
            lemma_lex_positions_monotone(s, i + comment_len(s, i), line);
        } else if c == '\n' {
            lemma_lex_positions_monotone(s, i + 1, line + 1);
            lemma_cons_positions(
                TokenView { kind: TokenType::NewLine, text: Seq::empty(), line, col: i },
                spec_lex(s, i + 1, line + 1),
                line,
                i,
                line + 1,
                i + 1,
            );
        } else if is_blank_char(c) {
            lemma_lex_positions_monotone(s, i + 1, line);
        } else if is_word_char(c) && !is_digit_char(c) {
            let k = word_len(s, i);
            lemma_word_len_bound(s, i);
            lemma_lex_positions_monotone(s, i + k, line);
            lemma_cons_positions(
                TokenView {
                    kind: TokenType::Identifier,
                    text: s.subrange(i as int, (i + k) as int),
                    line,
                    col: i,
                },
                spec_lex(s, i + k, line),
                line,
                i,
                line,
                i + k,
            );
        } else if c == '.' {
            let k = word_len(s, i + 1);
            lemma_word_len_bound(s, i + 1);
            lemma_lex_positions_monotone(s, i + 1 + k, line);
            lemma_cons_positions(
                TokenView {
                    kind: TokenType::Directive,
                    text: s.subrange((i + 1) as int, (i + 1 + k) as int),
                    line,
                    col: i,
                },
                spec_lex(s, i + 1 + k, line),
                line,
                i,
                line,
                i + 1 + k,
            );
        } else if c == '#' {
            let k = alnum_len(s, i + 1);
            let raw = s.subrange((i + 1) as int, (i + 1 + k) as int);
            if literal_ok(raw) {
                lemma_alnum_len_bound(s, i + 1);
                lemma_lex_positions_monotone(s, i + 1 + k, line);
                lemma_cons_positions(
                    TokenView {
                        kind: TokenType::Number,
                        text: dec_digits(literal_value(raw)),
                        line,
                        col: i,
                    },
                    spec_lex(s, i + 1 + k, line),
                    line,
                    i,
                    line,
                    i + 1 + k,
                );
            }
        } else if c == ',' {
            lemma_lex_positions_monotone(s, i + 1, line);
            lemma_cons_positions(
                TokenView { kind: TokenType::Comma, text: Seq::empty(), line, col: i },
                spec_lex(s, i + 1, line),
                line,
                i,
                line,
                i + 1,
            );
        } else if c == ':' {
            lemma_lex_positions_monotone(s, i + 1, line);
            lemma_cons_positions(
                TokenView { kind: TokenType::Colon, text: Seq::empty(), line, col: i },
                spec_lex(s, i + 1, line),
                line,
                i,
                line,
                i + 1,
            );
        }
    }
}

/// Tokenizing is a pure function of the source text: two passes over equal
/// text yield equal token sequences.
pub proof fn lemma_tokenize_deterministic(s: Seq<char>, t1: Seq<TokenView>, t2: Seq<TokenView>)
    requires
        spec_lex(s, 0, 1) == Ok::<Seq<TokenView>, LexErrView>(t1),
        spec_lex(s, 0, 1) == Ok::<Seq<TokenView>, LexErrView>(t2),
    ensures
        t1 == t2,
{
}

proof fn lemma_word_len_from_scan(s: Seq<char>, i: nat, end: nat)
    requires
        i <= end <= s.len(),
        forall|j: int| i <= j < end ==> is_word_char(#[trigger] s[j]),
        end == s.len() || !is_word_char(s[end as int]),
    ensures
        word_len(s, i) == end - i,
    decreases end - i,
{
    if i < end {
        lemma_word_len_from_scan(s, i + 1, end);
    }
}

proof fn lemma_alnum_len_from_scan(s: Seq<char>, i: nat, end: nat)
    requires
        i <= end <= s.len(),
        forall|j: int| i <= j < end ==> is_alnum_char(#[trigger] s[j]),
        end == s.len() || !is_alnum_char(s[end as int]),
    ensures
        alnum_len(s, i) == end - i,
    decreases end - i,
{
    if i < end {
        lemma_alnum_len_from_scan(s, i + 1, end);
    }
}

/// The sequence of token models of a token list.
pub open spec fn token_views(ts: Seq<Token>) -> Seq<TokenView> {
    ts.map_values(|t: Token| t@)
}

/// The lexical analyzer. `tokens` holds the output of the last `tokenize`
/// pass; `cursor` and `line` are the position state of the running pass and
/// mean nothing once a pass is over.
pub struct Tokenizer {
    pub tokens: Vec<Token>,
    pub cursor: usize,
    pub line: usize,
}

impl Tokenizer {
    /// A fresh lexer with no tokens yet.
    pub fn new() -> (t: Tokenizer)
        ensures
            t.tokens@ == Seq::<Token>::empty(),
            t.cursor == 0,
            t.line == 1,
    {
        Tokenizer { tokens: Vec::new(), cursor: 0, line: 1 }
    }

    /// True when the pass has consumed all of the source.
    fn is_at_eol(&self, source: &str) -> (r: bool)
        ensures
            r == (self.cursor >= source@.len()),
    {
        self.cursor >= source.unicode_len()
    }

    /// True when the cursor stands on an identifier character.
    fn is_at_identifier(&self, source: &str) -> (r: bool)
        requires
            self.cursor < source@.len(),
        ensures
            r == is_word_char(source@[self.cursor as int]),
    {
        crate::text::char_is_word(source.get_char(self.cursor))
    }

    /// Advances past one consumed character.
    fn advance(&mut self)
        requires
            old(self).cursor < usize::MAX,
        ensures
            final(self).cursor == old(self).cursor + 1,
            final(self).line == old(self).line,
            final(self).tokens == old(self).tokens,
    {
        self.cursor = self.cursor + 1;
    }

    /// Discards a comment: everything from `;` up to and including the next
    /// newline, or to the end of the input.
    fn skip_comment(&mut self, source: &str)
        requires
            old(self).cursor < source@.len(),
        ensures
            final(self).cursor == old(self).cursor + comment_len(source@, old(self).cursor as nat),
            final(self).cursor <= source@.len(),
            final(self).line == old(self).line,
            final(self).tokens == old(self).tokens,
    {
        let n: usize = source.unicode_len();
        let ghost start = self.cursor as nat;
        while self.cursor < n && source.get_char(self.cursor) != '\n'
            invariant
                n == source@.len(),
                start <= self.cursor <= n,
                comment_len(source@, start) == self.cursor - start + comment_len(
                    source@,
                    self.cursor as nat,
                ),
                self.line == old(self).line,
                self.tokens == old(self).tokens,
            decreases n - self.cursor,
        {
            self.cursor = self.cursor + 1;
        }
        if self.cursor < n {
            self.cursor = self.cursor + 1;
        }
    }

    /// Scans an identifier: greedily consumes word characters and pushes an
    /// Identifier token holding them.
    fn parse_identifier(&mut self, source: &str)
        requires
            old(self).cursor < source@.len(),
            is_word_char(source@[old(self).cursor as int]),
        ensures
            final(self).cursor == old(self).cursor + word_len(source@, old(self).cursor as nat),
            final(self).cursor <= source@.len(),
            final(self).line == old(self).line,
            token_views(final(self).tokens@) == token_views(old(self).tokens@).push(
                TokenView {
                    kind: TokenType::Identifier,
                    text: source@.subrange(old(self).cursor as int, final(self).cursor as int),
                    line: old(self).line as nat,
                    col: old(self).cursor as nat,
                },
            ),
    {
        let n: usize = source.unicode_len();
        let start: usize = self.cursor;
        let position = Position { line: self.line, column: self.cursor };
        while self.cursor < n && crate::text::char_is_word(source.get_char(self.cursor))
            invariant
                n == source@.len(),
                start <= self.cursor <= n,
                forall|j: int| start <= j < self.cursor ==> is_word_char(#[trigger] source@[j]),
                self.line == old(self).line,
                self.tokens == old(self).tokens,
            decreases n - self.cursor,
        {
            self.cursor = self.cursor + 1;
        }
        proof {
            lemma_word_len_from_scan(source@, start as nat, self.cursor as nat);
        }
        let text = String::from_str(source.substring_char(start, self.cursor));
        self.tokens.push(Token { token_type: TokenType::Identifier, value: text, position });
        proof {
            assert(token_views(self.tokens@) =~= token_views(old(self).tokens@).push(
                TokenView {
                    kind: TokenType::Identifier,
                    text: source@.subrange(start as int, self.cursor as int),
                    line: old(self).line as nat,
                    col: start as nat,
                },
            ));
        }
    }

    /// Scans a directive: consumes the `.`, then greedily consumes word
    /// characters; the returned token's text excludes the dot.
    fn parse_directive(&mut self, source: &str) -> (t: Token)
        requires
            old(self).cursor < source@.len(),
        ensures
            final(self).cursor == old(self).cursor + 1 + word_len(source@, (old(self).cursor + 1) as nat),
            final(self).cursor <= source@.len(),
            final(self).line == old(self).line,
            final(self).tokens == old(self).tokens,
            t@ == (TokenView {
                kind: TokenType::Directive,
                text: source@.subrange(old(self).cursor + 1, final(self).cursor as int),
                line: old(self).line as nat,
                col: old(self).cursor as nat,
            }),
    {
        let n: usize = source.unicode_len();
        let position = Position { line: self.line, column: self.cursor };
        self.cursor = self.cursor + 1;
        let start: usize = self.cursor;
        while self.cursor < n && crate::text::char_is_word(source.get_char(self.cursor))
            invariant
                n == source@.len(),
                start <= self.cursor <= n,
                forall|j: int| start <= j < self.cursor ==> is_word_char(#[trigger] source@[j]),
                self.line == old(self).line,
                self.tokens == old(self).tokens,
            decreases n - self.cursor,
        {
            self.cursor = self.cursor + 1;
        }
        proof {
            lemma_word_len_from_scan(source@, start as nat, self.cursor as nat);
        }
        let text = String::from_str(source.substring_char(start, self.cursor));
        Token { token_type: TokenType::Directive, value: text, position }
    }

    /// Scans a `#` numeric literal: consumes the `#` and the alphanumeric
    /// characters after it, and decodes them; the returned token's text is
    /// the decimal rendering of the decoded value.
    fn parse_number(&mut self, source: &str) -> (r: Result<Token, LexError>)
        requires
            old(self).cursor < source@.len(),
        ensures
            final(self).cursor == old(self).cursor + 1 + alnum_len(source@, (old(self).cursor + 1) as nat),
            final(self).cursor <= source@.len(),
            final(self).line == old(self).line,
            final(self).tokens == old(self).tokens,
            match r {
                Ok(t) => literal_ok(source@.subrange(old(self).cursor + 1, final(self).cursor as int))
                    && t@ == (TokenView {
                    kind: TokenType::Number,
                    text: dec_digits(
                        literal_value(
                            source@.subrange(old(self).cursor + 1, final(self).cursor as int),
                        ),
                    ),
                    line: old(self).line as nat,
                    col: old(self).cursor as nat,
                }),
                Err(e) => !literal_ok(source@.subrange(old(self).cursor + 1, final(self).cursor as int))
                    && e@ == (LexErrView::InvalidNumber {
                    literal: source@.subrange(old(self).cursor + 1, final(self).cursor as int),
                    line: old(self).line as nat,
                    col: old(self).cursor as nat,
                }),
            },
    {
        let n: usize = source.unicode_len();
        let position = Position { line: self.line, column: self.cursor };
        self.cursor = self.cursor + 1;
        let start: usize = self.cursor;
        while self.cursor < n && crate::text::char_is_alnum(source.get_char(self.cursor))
            invariant
                n == source@.len(),
                start <= self.cursor <= n,
                forall|j: int| start <= j < self.cursor ==> is_alnum_char(#[trigger] source@[j]),
                self.line == old(self).line,
                self.tokens == old(self).tokens,
            decreases n - self.cursor,
        {
            self.cursor = self.cursor + 1;
        }
        proof {
            lemma_alnum_len_from_scan(source@, start as nat, self.cursor as nat);
        }
        let raw: &str = source.substring_char(start, self.cursor);
        match get_number_as_int(raw) {
            Some(num) => Ok(
                Token {
                    token_type: TokenType::Number,
                    value: to_dec_string(num as u64),
                    position,
                },
            ),
            None => Err(
                LexError::InvalidNumber { literal: String::from_str(raw), position },
            ),
        }
    }

    /// Runs one full lexing pass over `source`, replacing any earlier pass's
    /// state. On success `self.tokens` holds exactly the token sequence the
    /// lexing rules give for `source`; on failure the first lexical error is
    /// returned and no token list of this pass is valid output.
    pub fn tokenize(&mut self, source: &str) -> (r: Result<(), LexError>)
        requires
            source@.len() < usize::MAX,
        ensures
            match r {
                Ok(()) => spec_lex(source@, 0, 1) == Ok::<Seq<TokenView>, LexErrView>(
                    token_views(final(self).tokens@),
                ),
                Err(e) => spec_lex(source@, 0, 1) == Err::<Seq<TokenView>, LexErrView>(e@),
            },
    {
        self.tokens = Vec::new();
        self.cursor = 0;
        self.line = 1;
        let n: usize = source.unicode_len();
        proof {
            assert(token_views(self.tokens@) =~= Seq::<TokenView>::empty());
        }
        while self.cursor < n
            invariant
                n == source@.len(),
                n < usize::MAX,
                self.cursor <= n,
                1 <= self.line,
                self.line <= 1 + self.cursor,
                spec_lex(source@, 0, 1) == lex_join(
                    token_views(self.tokens@),
                    spec_lex(source@, self.cursor as nat, self.line as nat),
                ),
            decreases n - self.cursor,
        {
            let ghost toks0 = token_views(self.tokens@);
            let ghost cur0 = self.cursor as nat;
            let ghost line0 = self.line as nat;
            let ghost rest0 = spec_lex(source@, cur0, line0);
            let current_char: char = source.get_char(self.cursor);
            let position = Position { line: self.line, column: self.cursor };

            if current_char == ';' {
                self.skip_comment(source);
                continue;
            }

            if current_char == '\n' {
                self.tokens.push(
                    Token { token_type: TokenType::NewLine, value: String::new(), position },
                );
                self.line = self.line + 1;
                self.advance();
                proof {
                    let tv = TokenView {
                        kind: TokenType::NewLine,
                        text: Seq::empty(),
                        line: line0,
                        col: cur0,
                    };
                    assert(token_views(self.tokens@) =~= toks0.push(tv));
                    lemma_lex_join_push(toks0, tv, spec_lex(source@, cur0 + 1, line0 + 1));
                }
                continue;
            }

            if crate::text::char_is_blank(current_char) {
                self.advance();
                continue;
            }

            if self.is_at_identifier(source) && !crate::text::char_is_digit(current_char) {
                self.parse_identifier(source);
                proof {
                    let k = word_len(source@, cur0);
                    let tv = TokenView {
                        kind: TokenType::Identifier,
                        text: source@.subrange(cur0 as int, (cur0 + k) as int),
                        line: line0,
                        col: cur0,
                    };
                    lemma_lex_join_push(toks0, tv, spec_lex(source@, cur0 + k, line0));
                }
                continue;
            }

            if current_char == '.' {
                let token = self.parse_directive(source);
                self.tokens.push(token);
                proof {
                    let k = word_len(source@, cur0 + 1);
                    let tv = TokenView {
                        kind: TokenType::Directive,
                        text: source@.subrange((cur0 + 1) as int, (cur0 + 1 + k) as int),
                        line: line0,
                        col: cur0,
                    };
                    assert(token_views(self.tokens@) =~= toks0.push(tv));
                    lemma_lex_join_push(toks0, tv, spec_lex(source@, cur0 + 1 + k, line0));
                }
                continue;
            }

            if current_char == '#' {
                let token = match self.parse_number(source) {
                    Ok(token) => token,
                    Err(e) => {
                        return Err(e);
                    },
                };
                self.tokens.push(token);
                proof {
                    let k = alnum_len(source@, cur0 + 1);
                    let raw = source@.subrange((cur0 + 1) as int, (cur0 + 1 + k) as int);
                    let tv = TokenView {
                        kind: TokenType::Number,
                        text: dec_digits(literal_value(raw)),
                        line: line0,
                        col: cur0,
                    };
                    assert(token_views(self.tokens@) =~= toks0.push(tv));
                    lemma_lex_join_push(toks0, tv, spec_lex(source@, cur0 + 1 + k, line0));
                }
                continue;
            }

            if current_char == ',' {
                self.tokens.push(
                    Token { token_type: TokenType::Comma, value: String::new(), position },
                );
                self.advance();
                proof {
                    let tv = TokenView {
                        kind: TokenType::Comma,
                        text: Seq::empty(),
                        line: line0,
                        col: cur0,
                    };
                    assert(token_views(self.tokens@) =~= toks0.push(tv));
                    lemma_lex_join_push(toks0, tv, spec_lex(source@, cur0 + 1, line0));
                }
                continue;
            }

            if current_char == ':' {
                self.tokens.push(
                    Token { token_type: TokenType::Colon, value: String::new(), position },
                );
                self.advance();
                proof {
                    let tv = TokenView {
                        kind: TokenType::Colon,
                        text: Seq::empty(),
                        line: line0,
                        col: cur0,
                    };
                    assert(token_views(self.tokens@) =~= toks0.push(tv));
                    lemma_lex_join_push(toks0, tv, spec_lex(source@, cur0 + 1, line0));
                }
                continue;
            }

            return Err(
                LexError::UnexpectedCharacter { character: current_char, position },
            );
        }
        proof {
            assert(spec_lex(source@, self.cursor as nat, self.line as nat)
                == Ok::<Seq<TokenView>, LexErrView>(Seq::empty()));
            assert(token_views(self.tokens@) + Seq::<TokenView>::empty() =~= token_views(
                self.tokens@,
            ));
        }
        Ok(())
    }
}

} // verus!

