//! Decoding of the escape sequences in the raw text of a template literal.
use vstd::prelude::*;
use vstd::string::StringExecFns;

use crate::text::{push_char, scalar_char, text_chars};

verus! {

/// Why the escapes of a raw text cannot be decoded.
#[derive(Debug, Clone, Copy, PartialEq, Eq, Structural)]
pub enum EscapeError {
    /// `\1` to `\7`, or `\0` followed by a digit.
    LegacyOctalEscape,
    /// `\8` or `\9`.
    NonOctalEscape,
    /// `\x` not followed by two hex digits.
    InvalidHexEscape,
    /// `\u{...}` naming a value of 0x110000 or more.
    UndefinedCodePoint,
    /// `\u` followed neither by four hex digits nor by hex digits in braces.
    InvalidUnicodeEscape,
}

/// What one step of the scan reads from the raw text.
#[derive(Debug, Clone, Copy, PartialEq, Eq, Structural)]
pub enum Piece {
    /// A character of the cooked text.
    Char(char),
    /// A `\u` escape naming a surrogate value (0xD800..=0xDFFF).
    Surrogate(u32),
    /// Nothing: a line continuation, or a backslash that ends the text.
    Nothing,
}

/// A hex digit: `0`-`9`, `a`-`f` or `A`-`F`.
pub open spec fn is_hex_digit(c: char) -> bool {
    ('0' <= c && c <= '9') || ('a' <= c && c <= 'f') || ('A' <= c && c <= 'F')
}

/// A decimal digit: `0`-`9`.
pub open spec fn is_decimal_digit(c: char) -> bool {
    '0' <= c && c <= '9'
}

/// The value of a hex digit.
pub open spec fn hex_digit_value(c: char) -> nat {
    if '0' <= c && c <= '9' {
        (c as u32 - '0' as u32) as nat
    } else if 'a' <= c && c <= 'f' {
        (c as u32 - 'a' as u32 + 10) as nat
    } else {
        (c as u32 - 'A' as u32 + 10) as nat
    }
}

/// The number that the hex digits `d` write, most significant first.
pub open spec fn hex_value(d: Seq<char>) -> nat
    decreases d.len(),
{
    if d.len() == 0 {
        0
    } else {
        hex_value(d.drop_last()) * 16 + hex_digit_value(d.last())
    }
}

/// `s[a..b]` lies within `s` and holds hex digits only.
pub open spec fn all_hex(s: Seq<char>, a: int, b: int) -> bool {
    0 <= a <= b <= s.len() && forall|i: int| a <= i < b ==> is_hex_digit(s[i])
}

/// The end of the run of hex digits that starts at `from`.
pub open spec fn hex_run_end(s: Seq<char>, from: int) -> int
    decreases s.len() - from,
{
    if from < s.len() && is_hex_digit(s[from]) {
        hex_run_end(s, from + 1)
    } else {
        from
    }
}

/// The code unit or code point `v` named by a `\u` escape that ends before `next`.
pub open spec fn code_value(v: nat, next: int) -> Result<(Piece, int), EscapeError> {
    if 0xD800 <= v && v < 0xE000 {
        Ok((Piece::Surrogate(v as u32), next))
    } else {
        Ok((Piece::Char((v as u32) as char), next))
    }
}

/// A `\u` escape whose `u` stands at `j`: four hex digits, or hex digits in braces.
pub open spec fn unicode_escape(s: Seq<char>, j: int) -> Result<(Piece, int), EscapeError> {
    if all_hex(s, j + 1, j + 5) {
        code_value(hex_value(s.subrange(j + 1, j + 5)), j + 5)
    } else if j + 1 < s.len() && s[j + 1] == '{' {
        let e = hex_run_end(s, j + 2);
        if e < s.len() && s[e] == '}' && e > j + 2 {
            let v = hex_value(s.subrange(j + 2, e));
            if v >= 0x110000 {
                Err(EscapeError::UndefinedCodePoint)
            } else {
                code_value(v, e + 1)
            }
        } else {
            Err(EscapeError::InvalidUnicodeEscape)
        }
    } else {
        Err(EscapeError::InvalidUnicodeEscape)
    }
}

/// The escape whose backslash stands at `i`: what it reads and where the scan goes on,
/// or the error it makes. A backslash that ends the text reads nothing.
pub open spec fn escape_at(s: Seq<char>, i: int) -> Result<(Piece, int), EscapeError> {
    let j = i + 1;
    if j >= s.len() {
        Ok((Piece::Nothing, j))
    } else {
        let c = s[j];
        if c == '0' {
            if j + 1 < s.len() && is_decimal_digit(s[j + 1]) {
                Err(EscapeError::LegacyOctalEscape)
            } else {
                Ok((Piece::Char('\0'), j + 1))
            }
        } else if '1' <= c && c <= '7' {
            Err(EscapeError::LegacyOctalEscape)
        } else if c == '8' || c == '9' {
            Err(EscapeError::NonOctalEscape)
        } else if c == 'x' {
            if all_hex(s, j + 1, j + 3) {
                Ok((Piece::Char((hex_value(s.subrange(j + 1, j + 3)) as u32) as char), j + 3))
            } else {
                Err(EscapeError::InvalidHexEscape)
            }
        } else if c == 'u' {
            unicode_escape(s, j)
        } else if c == 'b' {
            Ok((Piece::Char('\x08'), j + 1))
        } else if c == 'f' {
            Ok((Piece::Char('\x0C'), j + 1))
        } else if c == 'n' {
            Ok((Piece::Char('\n'), j + 1))
        } else if c == 'r' {
            Ok((Piece::Char('\r'), j + 1))
        } else if c == 't' {
            Ok((Piece::Char('\t'), j + 1))
        } else if c == 'v' {
            Ok((Piece::Char('\x0B'), j + 1))
        } else if c == '\r' && j + 1 < s.len() && s[j + 1] == '\n' {
            Ok((Piece::Nothing, j + 2))
        } else if c == '\n' || c == '\r' || c == '\u{2028}' || c == '\u{2029}' {
            Ok((Piece::Nothing, j + 1))
        } else {
            Ok((Piece::Char(c), j + 1))
        }
    }
}

/// What the scan reads at `i`: a literal character, or an escape.
pub open spec fn piece_at(s: Seq<char>, i: int) -> Result<(Piece, int), EscapeError> {
    if s[i] == '\\' {
        escape_at(s, i)
    } else {
        Ok((Piece::Char(s[i]), i + 1))
    }
}

/// A surrogate value that completes a pair: 0xD800..=0xDBFF.
pub open spec fn is_pair_completing(v: u32) -> bool {
    0xD800 <= v && v < 0xDC00
}

/// A surrogate value that opens a pair: 0xDC00..=0xDFFF.
pub open spec fn is_pair_initiating(v: u32) -> bool {
    0xDC00 <= v && v < 0xE000
}

/// The supplementary code point that an opening value `u` and a completing value `v`
/// combine into.
pub open spec fn paired_value(u: u32, v: u32) -> int {
    (u - 0xDC00) * 0x400 + (v - 0xD800) + 0x10000
}

/// The scan state after one piece: the cooked text so far, the opening surrogate that
/// waits for its partner, and whether a surrogate went unpaired. An opening surrogate
/// pairs only with a completing one that comes right after it.
pub open spec fn pair_step(out: Seq<char>, pending: Option<u32>, unpaired: bool, p: Piece) -> (
    Seq<char>,
    Option<u32>,
    bool,
) {
    match p {
        Piece::Char(c) => (out.push(c), None, unpaired || pending is Some),
        Piece::Nothing => (out, None, unpaired || pending is Some),
        Piece::Surrogate(v) => if is_pair_completing(v) {
            match pending {
                Some(u) => (out.push((paired_value(u, v) as u32) as char), None, unpaired),
                None => (out, None, true),
            }
        } else {
            (out, Some(v), unpaired || pending is Some)
        },
    }
}

/// The result of cooking `s` from position `i` on, in the given scan state.
pub open spec fn cook_from(
    s: Seq<char>,
    i: int,
    out: Seq<char>,
    pending: Option<u32>,
    unpaired: bool,
) -> Result<Option<Seq<char>>, EscapeError>
    decreases s.len() - i,
{
    if i < 0 || i >= s.len() {
        if unpaired || pending is Some {
            Ok(None)
        } else {
            Ok(Some(out))
        }
    } else {
        match piece_at(s, i) {
            Err(e) => Err(e),
            Ok((p, next)) => {
                let (out2, pending2, unpaired2) = pair_step(out, pending, unpaired, p);
                cook_from(s, next, out2, pending2, unpaired2)
            },
        }
    }
}

/// The cooked value of the raw text `s`: `Ok(Some(text))`, `Ok(None)` where a surrogate
/// went unpaired, or the first error.
pub open spec fn cooked(s: Seq<char>) -> Result<Option<Seq<char>>, EscapeError> {
    cook_from(s, 0, Seq::empty(), None, false)
}

/// The view of a result of `cook`.
pub open spec fn cook_result_view(r: Result<Option<String>, EscapeError>) -> Result<
    Option<Seq<char>>,
    EscapeError,
> {
    match r {
        Ok(Some(t)) => Ok(Some(t@)),
        Ok(None) => Ok(None),
        Err(e) => Err(e),
    }
}

/// The view of a decoding step.
pub open spec fn step_view(r: Result<(Piece, usize), EscapeError>) -> Result<
    (Piece, int),
    EscapeError,
> {
    match r {
        Ok((p, next)) => Ok((p, next as int)),
        Err(e) => Err(e),
    }
}

/// The value of a hex digit; `None` for any other character.
fn hex_digit(c: char) -> (r: Option<u32>)
    ensures
        r is Some == is_hex_digit(c),
        r matches Some(v) ==> v < 16 && v as nat == hex_digit_value(c),
{
    if '0' <= c && c <= '9' {
        Some(c as u32 - '0' as u32)
    } else if 'a' <= c && c <= 'f' {
        Some(c as u32 - 'a' as u32 + 10)
    } else if 'A' <= c && c <= 'F' {
        Some(c as u32 - 'A' as u32 + 10)
    } else {
        None
    }
}

/// Whether `c` is a hex digit.
fn is_hex(c: char) -> (r: bool)
    ensures
        r == is_hex_digit(c),
{
    hex_digit(c).is_some()
}

/// One more digit multiplies the number by 16 and adds the digit.
proof fn lemma_hex_value_step(s: Seq<char>, a: int, b: int)
    requires
        0 <= a < b <= s.len(),
    ensures
        hex_value(s.subrange(a, b)) == hex_value(s.subrange(a, b - 1)) * 16 + hex_digit_value(
            s[b - 1],
        ),
{
    assert(s.subrange(a, b).drop_last() =~= s.subrange(a, b - 1));
}

/// A few hex digits write a number below 16 to the power of their count.
proof fn lemma_hex_value_small(d: Seq<char>)
    requires
        forall|i: int| 0 <= i < d.len() ==> is_hex_digit(d[i]),
    ensures
        d.len() <= 1 ==> hex_value(d) < 0x10,
        d.len() <= 2 ==> hex_value(d) < 0x100,
        d.len() <= 3 ==> hex_value(d) < 0x1000,
        d.len() <= 4 ==> hex_value(d) < 0x10000,
    decreases d.len(),
{
    if d.len() > 0 {
        assert(is_hex_digit(d[d.len() - 1]));
        lemma_hex_value_small(d.drop_last());
    }
}

/// The number that the hex digits `s[a..b]` write, where it is below 0x110000; some
/// value of at least 0x110000 otherwise.
fn hex_digits_value(s: &[char], a: usize, b: usize) -> (r: u32)
    requires
        all_hex(s@, a as int, b as int),
    ensures
        hex_value(s@.subrange(a as int, b as int)) < 0x110000 ==> r == hex_value(
            s@.subrange(a as int, b as int),
        ),
        hex_value(s@.subrange(a as int, b as int)) >= 0x110000 ==> r >= 0x110000,
{
    let mut acc: u32 = 0;
    let mut i: usize = a;
    assert(s@.subrange(a as int, a as int).len() == 0);
    while i < b
        invariant
            all_hex(s@, a as int, b as int),
            a <= i <= b,
            acc < 0x1100010,
            hex_value(s@.subrange(a as int, i as int)) < 0x110000 ==> acc == hex_value(
                s@.subrange(a as int, i as int),
            ),
            hex_value(s@.subrange(a as int, i as int)) >= 0x110000 ==> acc >= 0x110000,
        decreases b - i,
    {
        let d = hex_digit(s[i]).unwrap();
        if acc < 0x110000 {
            acc = acc * 16 + d;
        }
        proof {
            lemma_hex_value_step(s@, a as int, i + 1);
        }
        i += 1;
    }
    acc
}

/// The piece that the value `v` of a `\u` escape reads, and where the scan goes on.
fn code_piece(v: u32, next: usize) -> (r: (Piece, usize))
    requires
        v < 0x110000,
    ensures
        code_value(v as nat, next as int) == Ok::<(Piece, int), EscapeError>((r.0, r.1 as int)),
{
    if 0xD800 <= v && v < 0xE000 {
        (Piece::Surrogate(v), next)
    } else {
        let c = scalar_char(v).unwrap();
        proof {
            vstd::utf8::char_u32_cast(c, v);
        }
        (Piece::Char(c), next)
    }
}

/// Decodes the `\u` escape whose `u` stands at `j`.
fn decode_unicode(s: &[char], j: usize) -> (r: Result<(Piece, usize), EscapeError>)
    requires
        j < s@.len(),
    ensures
        step_view(r) == unicode_escape(s@, j as int),
{
    if s.len() - j > 4 && is_hex(s[j + 1]) && is_hex(s[j + 2]) && is_hex(s[j + 3]) && is_hex(
        s[j + 4],
    ) {
        assert(all_hex(s@, j + 1, j + 5));
        let v = hex_digits_value(s, j + 1, j + 5);
        proof {
            lemma_hex_value_small(s@.subrange(j + 1, j + 5));
        }
        Ok(code_piece(v, j + 5))
    } else if s.len() - j > 1 && s[j + 1] == '{' {
        let mut e: usize = j + 2;
        while e < s.len() && is_hex(s[e])
            invariant
                j + 2 <= e <= s@.len(),
                all_hex(s@, j + 2, e as int),
                hex_run_end(s@, j + 2) == hex_run_end(s@, e as int),
            decreases s@.len() - e,
        {
            e += 1;
        }
        if e < s.len() && s[e] == '}' && e > j + 2 {
            let v = hex_digits_value(s, j + 2, e);
            if v >= 0x110000 {
                Err(EscapeError::UndefinedCodePoint)
            } else {
                Ok(code_piece(v, e + 1))
            }
        } else {
            Err(EscapeError::InvalidUnicodeEscape)
        }
    } else {
        Err(EscapeError::InvalidUnicodeEscape)
    }
}

/// Decodes the escape whose backslash stands at `i`.
fn decode_escape(s: &[char], i: usize) -> (r: Result<(Piece, usize), EscapeError>)
    requires
        i < s@.len(),
    ensures
        step_view(r) == escape_at(s@, i as int),
{
    let n = s.len();
    let j = i + 1;
    if j >= n {
        return Ok((Piece::Nothing, j));
    }
    let c = s[j];
    match c {
        '0' => {
            if s.len() - j > 1 && '0' <= s[j + 1] && s[j + 1] <= '9' {
                Err(EscapeError::LegacyOctalEscape)
            } else {
                Ok((Piece::Char('\0'), j + 1))
            }
        },
        '1'..='7' => Err(EscapeError::LegacyOctalEscape),
        '8' | '9' => Err(EscapeError::NonOctalEscape),
        'x' => {
            if s.len() - j > 2 && is_hex(s[j + 1]) && is_hex(s[j + 2]) {
                assert(all_hex(s@, j + 1, j + 3));
                let v = hex_digits_value(s, j + 1, j + 3);
                proof {
                    lemma_hex_value_small(s@.subrange(j + 1, j + 3));
                }
                let ch = scalar_char(v).unwrap();
                proof {
                    vstd::utf8::char_u32_cast(ch, v);
                }
                Ok((Piece::Char(ch), j + 3))
            } else {
                Err(EscapeError::InvalidHexEscape)
            }
        },
        'u' => decode_unicode(s, j),
        'b' => Ok((Piece::Char('\x08'), j + 1)),
        'f' => Ok((Piece::Char('\x0C'), j + 1)),
        'n' => Ok((Piece::Char('\n'), j + 1)),
        'r' => Ok((Piece::Char('\r'), j + 1)),
        't' => Ok((Piece::Char('\t'), j + 1)),
        'v' => Ok((Piece::Char('\x0B'), j + 1)),
        '\r' => {
            if s.len() - j > 1 && s[j + 1] == '\n' {
                Ok((Piece::Nothing, j + 2))
            } else {
                Ok((Piece::Nothing, j + 1))
            }
        },
        '\n' | '\u{2028}' | '\u{2029}' => Ok((Piece::Nothing, j + 1)),
        _ => Ok((Piece::Char(c), j + 1)),
    }
}

/// Decodes the escapes of one raw fragment of a template literal. Literal text is copied,
/// each escape becomes the character it denotes (a line continuation becomes nothing),
/// and a `\u` escape that opens a surrogate pair (0xDC00..=0xDFFF) combines with a
/// completing one (0xD800..=0xDBFF) right after it into one supplementary character.
/// Returns `Ok(None)` where a surrogate went unpaired, and the first malformed escape as
/// an error.
pub fn cook(raw: &str) -> (r: Result<Option<String>, EscapeError>)
    ensures
        cook_result_view(r) == cooked(raw@),
{
    let s = text_chars(raw);
    let mut buf = String::new();
    let mut pending: Option<u32> = None;
    let mut unpaired: bool = false;
    let mut i: usize = 0;
    while i < s.len()
        invariant
            i <= s@.len(),
            s@ == raw@,
            pending matches Some(u) ==> is_pair_initiating(u),
            cook_from(s@, i as int, buf@, pending, unpaired) == cooked(raw@),
        decreases s@.len() - i,
    {
        let (piece, next) = if s[i] == '\\' {
            match decode_escape(s.as_slice(), i) {
                Ok(step) => step,
                Err(e) => {
                    return Err(e);
                },
            }
        } else {
            (Piece::Char(s[i]), i + 1)
        };
        match piece {
            Piece::Char(c) => {
                push_char(&mut buf, c);
                if pending.is_some() {
                    unpaired = true;
                }
                pending = None;
            },
            Piece::Nothing => {
                if pending.is_some() {
                    unpaired = true;
                }
                pending = None;
            },
            Piece::Surrogate(v) => {
                if v < 0xDC00 {
                    match pending {
                        Some(u) => {
                            let cp = (u - 0xDC00) * 0x400 + (v - 0xD800) + 0x10000;
                            let c = scalar_char(cp).unwrap();
                            proof {
                                vstd::utf8::char_u32_cast(c, cp);
                            }
                            push_char(&mut buf, c);
                            pending = None;
                        },
                        None => {
                            unpaired = true;
                        },
                    }
                } else {
                    if pending.is_some() {
                        unpaired = true;
                    }
                    pending = Some(v);
                }
            },
        }
        i = next;
    }
    if unpaired || pending.is_some() {
        Ok(None)
    } else {
        Ok(Some(buf))
    }
}

/// From position `i` on, text without a backslash is copied as it stands.
proof fn lemma_cook_plain_from(s: Seq<char>, i: int)
    requires
        0 <= i <= s.len(),
        forall|j: int| 0 <= j < s.len() ==> s[j] != '\\',
    ensures
        cook_from(s, i, s.subrange(0, i), None, false) == Ok::<Option<Seq<char>>, EscapeError>(
            Some(s),
        ),
    decreases s.len() - i,
{
    if i < s.len() {
        assert(s.subrange(0, i).push(s[i]) =~= s.subrange(0, i + 1));
        lemma_cook_plain_from(s, i + 1);
    } else {
        assert(s.subrange(0, i) =~= s);
    }
}

/// Raw text without a backslash cooks to itself.
pub proof fn lemma_cook_plain_text(s: Seq<char>)
    requires
        forall|j: int| 0 <= j < s.len() ==> s[j] != '\\',
    ensures
        cooked(s) == Ok::<Option<Seq<char>>, EscapeError>(Some(s)),
{
    assert(s.subrange(0, 0) =~= Seq::<char>::empty());
    lemma_cook_plain_from(s, 0);
}

/// The description of an error.
pub open spec fn error_message(e: EscapeError) -> Seq<char> {
    match e {
        EscapeError::LegacyOctalEscape => "Octal escape sequences are not allowed in template strings."@,
        EscapeError::NonOctalEscape => "\\8 and \\9 are not allowed in template strings."@,
        EscapeError::InvalidHexEscape => "Invalid hexadecimal escape sequence"@,
        EscapeError::UndefinedCodePoint => "Undefined Unicode code-point"@,
        EscapeError::InvalidUnicodeEscape => "Invalid Unicode escape sequence"@,
    }
}

impl EscapeError {
    /// A description of the error, for a diagnostic.
    pub fn message(&self) -> (r: String)
        ensures
            r@ == error_message(*self),
    {
        match self {
            EscapeError::LegacyOctalEscape => String::from_str(
                "Octal escape sequences are not allowed in template strings.",
            ),
            EscapeError::NonOctalEscape => String::from_str(
                "\\8 and \\9 are not allowed in template strings.",
            ),
            EscapeError::InvalidHexEscape => String::from_str("Invalid hexadecimal escape sequence"),
            EscapeError::UndefinedCodePoint => String::from_str("Undefined Unicode code-point"),
            EscapeError::InvalidUnicodeEscape => String::from_str(
                "Invalid Unicode escape sequence",
            ),
        }
    }
}

} // verus!
