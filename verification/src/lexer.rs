//! The tokenizer: scans a GraphQL source text into a sequence of tokens,
//! skipping ignored characters (whitespace, commas, line comments), and
//! reporting the first lexing error if any position matches no token rule.

use vstd::prelude::*;
use vstd::string::*;
use vstd::utf8::*;

verus! {

/// An error that can occur during the lexing process.
#[derive(Debug, Clone, Copy, PartialEq, Eq, Structural)]
pub enum LexingError {
    UnknownToken,
    /// Carries the byte index of the opening quote of the unterminated
    /// string literal.
    UnterminatedString(usize),
}

/// The kind of a token of the GraphQL vocabulary.
#[derive(Debug, Clone, Copy, PartialEq, Eq, Structural)]
pub enum TokenKind {
    BraceOpen,
    BraceClose,
    ParenOpen,
    ParenClose,
    BracketOpen,
    BracketClose,
    Colon,
    Equals,
    Exclamation,
    Question,
    Ampersand,
    Pipe,
    Ellipsis,
    BlockStringDelimiter,
    StringLit,
    IntLit,
    FloatLit,
    BoolLit,
    Directive,
    Variable,
    Identifier,
}

/// A token: its kind and its span, as character indices into the source.
/// The span is contiguous, non-empty, and holds the exact source slice.
#[derive(Debug, Clone, Copy, PartialEq, Eq, Structural)]
pub struct Token {
    pub kind: TokenKind,
    pub start: usize,
    pub end: usize,
}

/// The outcome of scanning for one token at a position: a token, the end of
/// the input, or a lexing error.
#[derive(Debug, Clone, Copy, PartialEq, Eq, Structural)]
pub enum Scan {
    Tok(Token),
    End,
    Fail(LexingError),
}

/// Whitespace as the tokenizer skips it: the ASCII whitespace characters.
pub open spec fn is_ws(c: char) -> bool {
    c == ' ' || c == '\t' || c == '\n' || c == '\r' || c == '\u{000B}' || c == '\u{000C}'
}

/// A character that, outside comments, starts or continues an ignored run.
pub open spec fn is_skip_char(c: char) -> bool {
    is_ws(c) || c == ','
}

/// The first position at or after `i` that does not begin an ignored
/// character run (whitespace, commas, `#` line comments).
pub open spec fn skip_ws(s: Seq<char>, i: int) -> int
    decreases s.len() - i,
{
    if 0 <= i < s.len() {
        if is_skip_char(s[i]) {
            skip_ws(s, i + 1)
        } else if s[i] == '#' {
            skip_comment(s, i + 1)
        } else {
            i
        }
    } else {
        i
    }
}

/// Scanning inside a `#` line comment: everything up to the next carriage
/// return or line feed is ignored; the line break itself is whitespace.
pub open spec fn skip_comment(s: Seq<char>, i: int) -> int
    decreases s.len() - i,
{
    if 0 <= i < s.len() {
        if s[i] == '\r' || s[i] == '\n' {
            skip_ws(s, i + 1)
        } else {
            skip_comment(s, i + 1)
        }
    } else {
        i
    }
}

pub open spec fn is_digit(c: char) -> bool {
    ('0' as u32) <= (c as u32) && (c as u32) <= ('9' as u32)
}

pub open spec fn is_ident_start(c: char) -> bool {
    (('a' as u32) <= (c as u32) && (c as u32) <= ('z' as u32)) || (('A' as u32) <= (c as u32)
        && (c as u32) <= ('Z' as u32)) || c == '_'
}

pub open spec fn is_ident_char(c: char) -> bool {
    is_ident_start(c) || is_digit(c)
}

/// Length of the run of identifier characters starting at `i`.
pub open spec fn ident_run(s: Seq<char>, i: int) -> nat
    decreases s.len() - i,
{
    if 0 <= i < s.len() && is_ident_char(s[i]) {
        1 + ident_run(s, i + 1)
    } else {
        0
    }
}

/// Length of the run of decimal digits starting at `i`.
pub open spec fn digit_run(s: Seq<char>, i: int) -> nat
    decreases s.len() - i,
{
    if 0 <= i < s.len() && is_digit(s[i]) {
        1 + digit_run(s, i + 1)
    } else {
        0
    }
}

/// Scans the body of a single-line string literal from `j` (just past the
/// opening quote). A backslash escapes the next character, except that a
/// backslash directly before a line feed matches nothing. Returns the
/// position just past the closing quote, or `None` when no closing quote is
/// reached.
pub open spec fn string_body_end(s: Seq<char>, j: int) -> Option<int>
    decreases s.len() - j,
{
    if 0 <= j < s.len() {
        if s[j] == '"' {
            Some(j + 1)
        } else if s[j] == '\\' {
            if j + 1 < s.len() && s[j + 1] != '\n' {
                string_body_end(s, j + 2)
            } else {
                None
            }
        } else {
            string_body_end(s, j + 1)
        }
    } else {
        None
    }
}

/// Whether the range `[from, to)` holds a raw carriage return or line feed.
pub open spec fn has_newline(s: Seq<char>, from: int, to: int) -> bool {
    exists|k: int| from <= k < to && (s[k] == '\n' || s[k] == '\r')
}

/// Whether a quoted string literal starts at `i` whose matched text spans a
/// raw line break, which the tokenizer reports as an unterminated string.
pub open spec fn str_unterminated_at(s: Seq<char>, i: int) -> bool {
    &&& 0 <= i < s.len()
    &&& s[i] == '"'
    &&& !(i + 2 < s.len() && s[i + 1] == '"' && s[i + 2] == '"')
    &&& match string_body_end(s, i + 1) {
        Some(e) => has_newline(s, i, e),
        None => false,
    }
}

/// The end of an integer or float literal starting at `i` (an optional minus
/// sign, digits, then optionally a fraction and an exponent), or `None` when
/// no digit follows the position (or the minus sign).
pub open spec fn number_end(s: Seq<char>, i: int) -> Option<(TokenKind, int)> {
    let j: int = if s[i] == '-' {
        i + 1
    } else {
        i
    };
    if 0 <= j < s.len() && is_digit(s[j]) {
        let d1: int = j + digit_run(s, j);
        if d1 + 1 < s.len() && s[d1] == '.' && is_digit(s[d1 + 1]) {
            let d2: int = d1 + 1 + digit_run(s, d1 + 1);
            if d2 < s.len() && s[d2] == 'e' {
                let k: int = if d2 + 1 < s.len() && s[d2 + 1] == '-' {
                    d2 + 2
                } else {
                    d2 + 1
                };
                if 0 <= k < s.len() && is_digit(s[k]) {
                    Some((TokenKind::FloatLit, k + digit_run(s, k)))
                } else {
                    Some((TokenKind::FloatLit, d2))
                }
            } else {
                Some((TokenKind::FloatLit, d2))
            }
        } else {
            Some((TokenKind::IntLit, d1))
        }
    } else {
        None
    }
}

/// Whether the range `[i, e)` spells the keyword `true` or `false`.
pub open spec fn is_bool_word(s: Seq<char>, i: int, e: int) -> bool {
    (e - i == 4 && s[i] == 't' && s[i + 1] == 'r' && s[i + 2] == 'u' && s[i + 3] == 'e') || (e - i
        == 5 && s[i] == 'f' && s[i + 1] == 'a' && s[i + 2] == 'l' && s[i + 3] == 's' && s[i + 4]
        == 'e')
}

/// The token matched at a non-ignored position `i`, as its kind and end
/// position: the longest match of the fixed vocabulary. `None` means no rule
/// matches (an unknown token); a string literal spanning a raw line break is
/// not matched here, see [`str_unterminated_at`].
pub open spec fn token_at(s: Seq<char>, i: int) -> Option<(TokenKind, int)>
    recommends
        0 <= i < s.len(),
{
    let c = s[i];
    if c == '{' {
        Some((TokenKind::BraceOpen, i + 1))
    } else if c == '}' {
        Some((TokenKind::BraceClose, i + 1))
    } else if c == '(' {
        Some((TokenKind::ParenOpen, i + 1))
    } else if c == ')' {
        Some((TokenKind::ParenClose, i + 1))
    } else if c == '[' {
        Some((TokenKind::BracketOpen, i + 1))
    } else if c == ']' {
        Some((TokenKind::BracketClose, i + 1))
    } else if c == ':' {
        Some((TokenKind::Colon, i + 1))
    } else if c == '=' {
        Some((TokenKind::Equals, i + 1))
    } else if c == '!' {
        Some((TokenKind::Exclamation, i + 1))
    } else if c == '?' {
        Some((TokenKind::Question, i + 1))
    } else if c == '&' {
        Some((TokenKind::Ampersand, i + 1))
    } else if c == '|' {
        Some((TokenKind::Pipe, i + 1))
    } else if c == '.' {
        if i + 2 < s.len() && s[i + 1] == '.' && s[i + 2] == '.' {
            Some((TokenKind::Ellipsis, i + 3))
        } else {
            None
        }
    } else if c == '"' {
        if i + 2 < s.len() && s[i + 1] == '"' && s[i + 2] == '"' {
            Some((TokenKind::BlockStringDelimiter, i + 3))
        } else {
            match string_body_end(s, i + 1) {
                Some(e) => if has_newline(s, i, e) {
                    None
                } else {
                    Some((TokenKind::StringLit, e))
                },
                None => None,
            }
        }
    } else if c == '-' || is_digit(c) {
        number_end(s, i)
    } else if c == '@' {
        if i + 1 < s.len() && is_ident_start(s[i + 1]) {
            Some((TokenKind::Directive, i + 1 + ident_run(s, i + 1)))
        } else {
            None
        }
    } else if c == '$' {
        if i + 1 < s.len() && is_ident_start(s[i + 1]) {
            Some((TokenKind::Variable, i + 1 + ident_run(s, i + 1)))
        } else {
            None
        }
    } else if is_ident_start(c) {
        let e: int = i + ident_run(s, i);
        if is_bool_word(s, i, e) {
            Some((TokenKind::BoolLit, e))
        } else {
            Some((TokenKind::Identifier, e))
        }
    } else {
        None
    }
}

/// The stream of tokens of the text from position `i` on, each as its kind
/// and its exact source slice; `None` when scanning halts on a lexing
/// error. This is the tokenizer alone: a block-string delimiter is a token
/// like any other and what follows it is scanned as raw tokens.
pub open spec fn token_stream_from(s: Seq<char>, i: int) -> Option<Seq<(TokenKind, Seq<char>)>>
    decreases s.len() - i,
        via token_stream_from_decreases
{
    if !(0 <= i <= s.len()) {
        Some(Seq::empty())
    } else {
        let j = skip_ws(s, i);
        if j >= s.len() {
            Some(Seq::empty())
        } else {
            match token_at(s, j) {
                None => None,
                Some(t) => match token_stream_from(s, t.1) {
                    Some(rest) => Some(seq![(t.0, s.subrange(j, t.1))] + rest),
                    None => None,
                },
            }
        }
    }
}

#[via_fn]
proof fn token_stream_from_decreases(s: Seq<char>, i: int) {
    if 0 <= i <= s.len() {
        lemma_skip_ws_props(s, i);
        let j = skip_ws(s, i);
        if j < s.len() {
            lemma_token_at_le(s, j);
        }
    }
}

/// The number of bytes of the UTF-8 encoding of one character.
pub open spec fn char_width(c: char) -> int {
    if (c as u32) < 0x80 {
        1
    } else if (c as u32) < 0x800 {
        2
    } else if (c as u32) < 0x10000 {
        3
    } else {
        4
    }
}

/// The byte offset of character index `i`: the number of bytes the first `i`
/// characters occupy in the UTF-8 encoding of the text.
pub open spec fn byte_offset(s: Seq<char>, i: int) -> int
    decreases i,
{
    if i <= 0 {
        0
    } else {
        byte_offset(s, i - 1) + char_width(s[i - 1])
    }
}

/// What scanning one token from position `pos` yields, as stated by
/// [`next_token`]'s contract.
pub open spec fn scan_result(s: Seq<char>, pos: int) -> Scan {
    let j: int = skip_ws(s, pos);
    if j >= s.len() {
        Scan::End
    } else if str_unterminated_at(s, j) {
        Scan::Fail(LexingError::UnterminatedString(byte_offset(s, j) as usize))
    } else {
        match token_at(s, j) {
            Some((kind, e)) => Scan::Tok(
                Token { kind, start: j as usize, end: e as usize },
            ),
            None => Scan::Fail(LexingError::UnknownToken),
        }
    }
}

/// Skipping ignored characters stays inside the text and stops at a
/// position that starts no ignored run.
pub proof fn lemma_skip_ws_props(s: Seq<char>, i: int)
    requires
        0 <= i <= s.len(),
    ensures
        i <= skip_ws(s, i) <= s.len(),
        skip_ws(s, i) < s.len() ==> !is_skip_char(s[skip_ws(s, i)]) && s[skip_ws(s, i)] != '#',
    decreases s.len() - i,
{
    if i < s.len() {
        if is_skip_char(s[i]) {
            lemma_skip_ws_props(s, i + 1);
        } else if s[i] == '#' {
            lemma_skip_comment_props(s, i + 1);
        }
    }
}

pub proof fn lemma_skip_comment_props(s: Seq<char>, i: int)
    requires
        0 <= i <= s.len(),
    ensures
        i <= skip_comment(s, i) <= s.len(),
        skip_comment(s, i) < s.len() ==> !is_skip_char(s[skip_comment(s, i)]) && s[skip_comment(
            s,
            i,
        )] != '#',
    decreases s.len() - i,
{
    if i < s.len() {
        if s[i] == '\r' || s[i] == '\n' {
            lemma_skip_ws_props(s, i + 1);
        } else {
            lemma_skip_comment_props(s, i + 1);
        }
    }
}

pub proof fn lemma_ident_run_le(s: Seq<char>, i: int)
    requires
        0 <= i <= s.len(),
    ensures
        i + ident_run(s, i) <= s.len(),
    decreases s.len() - i,
{
    if i < s.len() && is_ident_char(s[i]) {
        lemma_ident_run_le(s, i + 1);
    }
}

pub proof fn lemma_digit_run_le(s: Seq<char>, i: int)
    requires
        0 <= i <= s.len(),
    ensures
        i + digit_run(s, i) <= s.len(),
    decreases s.len() - i,
{
    if i < s.len() && is_digit(s[i]) {
        lemma_digit_run_le(s, i + 1);
    }
}

pub proof fn lemma_string_body_end_le(s: Seq<char>, j: int)
    requires
        0 <= j,
    ensures
        string_body_end(s, j) matches Some(e) ==> j < e <= s.len(),
    decreases s.len() - j,
{
    if 0 <= j < s.len() {
        if s[j] == '"' {
        } else if s[j] == '\\' {
            if j + 1 < s.len() && s[j + 1] != '\n' {
                lemma_string_body_end_le(s, j + 2);
            }
        } else {
            lemma_string_body_end_le(s, j + 1);
        }
    }
}

/// A matched token has a non-empty span that stays inside the text.
pub proof fn lemma_token_at_le(s: Seq<char>, i: int)
    requires
        0 <= i < s.len(),
    ensures
        token_at(s, i) matches Some(t) ==> i < t.1 <= s.len(),
{
    let c = s[i];
    if c == '"' {
        lemma_string_body_end_le(s, i + 1);
    } else if c == '-' || is_digit(c) {
        let j: int = if c == '-' {
            i + 1
        } else {
            i
        };
        if 0 <= j < s.len() && is_digit(s[j]) {
            lemma_digit_run_le(s, j);
            let d1: int = j + digit_run(s, j);
            if d1 + 1 < s.len() && s[d1] == '.' && is_digit(s[d1 + 1]) {
                lemma_digit_run_le(s, d1 + 1);
                let d2: int = d1 + 1 + digit_run(s, d1 + 1);
                if d2 < s.len() && s[d2] == 'e' {
                    let k: int = if d2 + 1 < s.len() && s[d2 + 1] == '-' {
                        d2 + 2
                    } else {
                        d2 + 1
                    };
                    if 0 <= k < s.len() && is_digit(s[k]) {
                        lemma_digit_run_le(s, k);
                    }
                }
            }
        }
    } else if c == '@' || c == '$' {
        if i + 1 < s.len() {
            lemma_ident_run_le(s, i + 1);
        }
    } else if is_ident_start(c) {
        lemma_ident_run_le(s, i);
    }
}

proof fn lemma_encode_push(a: Seq<char>, x: char)
    ensures
        encode_utf8(a.push(x)) == encode_utf8(a) + encode_scalar(x as u32),
    decreases a.len(),
{
    if a.len() == 0 {
        assert(a.push(x)[0] == x);
        assert(a.push(x).drop_first() =~= Seq::<char>::empty());
        assert(encode_utf8(a.push(x)) == encode_scalar(x as u32) + encode_utf8(
            Seq::<char>::empty(),
        ));
        assert(encode_utf8(a.push(x)) =~= encode_utf8(a) + encode_scalar(x as u32));
    } else {
        assert(a.push(x).drop_first() =~= a.drop_first().push(x));
        lemma_encode_push(a.drop_first(), x);
        assert(encode_scalar(a[0] as u32) + (encode_utf8(a.drop_first()) + encode_scalar(
            x as u32,
        )) =~= (encode_scalar(a[0] as u32) + encode_utf8(a.drop_first())) + encode_scalar(
            x as u32,
        ));
    }
}

proof fn lemma_scalar_width(c: char)
    ensures
        encode_scalar(c as u32).len() == char_width(c),
{
}

/// [`byte_offset`] agrees with the length of the UTF-8 encoding of the
/// first `i` characters of the text.
pub proof fn lemma_byte_offset_encode(s: Seq<char>, i: int)
    requires
        0 <= i <= s.len(),
    ensures
        byte_offset(s, i) == encode_utf8(s.take(i)).len(),
    decreases i,
{
    if i == 0 {
        assert(s.take(0) =~= Seq::<char>::empty());
    } else {
        lemma_byte_offset_encode(s, i - 1);
        assert(s.take(i) =~= s.take(i - 1).push(s[i - 1]));
        lemma_encode_push(s.take(i - 1), s[i - 1]);
        lemma_scalar_width(s[i - 1]);
    }
}

fn is_skip_char_exec(c: char) -> (r: bool)
    ensures
        r == is_skip_char(c),
{
    c == ' ' || c == '\t' || c == '\n' || c == '\r' || c == '\u{000B}' || c == '\u{000C}' || c
        == ','
}

fn is_digit_exec(c: char) -> (r: bool)
    ensures
        r == is_digit(c),
{
    let u = c as u32;
    ('0' as u32) <= u && u <= ('9' as u32)
}

fn is_ident_start_exec(c: char) -> (r: bool)
    ensures
        r == is_ident_start(c),
{
    let u = c as u32;
    (('a' as u32) <= u && u <= ('z' as u32)) || (('A' as u32) <= u && u <= ('Z' as u32)) || c
        == '_'
}

fn is_ident_char_exec(c: char) -> (r: bool)
    ensures
        r == is_ident_char(c),
{
    is_ident_start_exec(c) || is_digit_exec(c)
}

/// The byte offset of character index `i` of `s`, as the input's UTF-8
/// encoding has it.
pub fn byte_offset_of(s: &str, i: usize) -> (b: usize)
    requires
        i <= s@.len(),
    ensures
        b == (byte_offset(s@, i as int) as usize),
{
    let pre = s.substring_char(0, i);
    proof {
        lemma_byte_offset_encode(s@, i as int);
        assert(s@.subrange(0, i as int) =~= s@.take(i as int));
    }
    pre.len()
}

fn digit_run_end(s: &str, from: usize, n: usize) -> (end: usize)
    requires
        n == s@.len(),
        from <= n,
    ensures
        end == from + digit_run(s@, from as int),
        from <= end <= n,
{
    let ghost sv = s@;
    let mut k: usize = from;
    loop
        invariant_except_break
            n == sv.len(),
            from <= k <= n,
            s@ == sv,
            digit_run(sv, from as int) == k - from + digit_run(sv, k as int),
        ensures
            k == from + digit_run(sv, from as int),
            from <= k <= n,
        decreases n - k,
    {
        if k >= n {
            break ;
        }
        let c = s.get_char(k);
        if is_digit_exec(c) {
            k = k + 1;
        } else {
            break ;
        }
    }
    k
}

fn ident_run_end(s: &str, from: usize, n: usize) -> (end: usize)
    requires
        n == s@.len(),
        from <= n,
    ensures
        end == from + ident_run(s@, from as int),
        from <= end <= n,
{
    let ghost sv = s@;
    let mut k: usize = from;
    loop
        invariant_except_break
            n == sv.len(),
            from <= k <= n,
            s@ == sv,
            ident_run(sv, from as int) == k - from + ident_run(sv, k as int),
        ensures
            k == from + ident_run(sv, from as int),
            from <= k <= n,
        decreases n - k,
    {
        if k >= n {
            break ;
        }
        let c = s.get_char(k);
        if is_ident_char_exec(c) {
            k = k + 1;
        } else {
            break ;
        }
    }
    k
}

/// Scans for the next token of `s` at or after character position `pos`,
/// skipping ignored characters first: returns the token, the end of the
/// input, or the lexing error that halts scanning there.
pub fn next_token(s: &str, pos: usize) -> (r: Scan)
    requires
        pos <= s@.len(),
    ensures
        r == scan_result(s@, pos as int),
{
    let ghost sv = s@;
    let n = s.unicode_len();
    let mut i: usize = pos;
    let mut in_comment: bool = false;
    proof {
        lemma_skip_ws_props(sv, pos as int);
    }
    loop
        invariant_except_break
            n == sv.len(),
            s@ == sv,
            pos <= i <= n,
            !in_comment ==> skip_ws(sv, pos as int) == skip_ws(sv, i as int),
            in_comment ==> skip_ws(sv, pos as int) == skip_comment(sv, i as int),
        ensures
            pos <= i <= n == sv.len(),
            s@ == sv,
            i == skip_ws(sv, pos as int),
        decreases n - i,
    {
        if i >= n {
            break ;
        }
        let c = s.get_char(i);
        if in_comment {
            if c == '\r' || c == '\n' {
                in_comment = false;
            }
            i = i + 1;
        } else {
            if is_skip_char_exec(c) {
                i = i + 1;
            } else if c == '#' {
                in_comment = true;
                i = i + 1;
            } else {
                break ;
            }
        }
    }
    let j = i;
    if j >= n {
        return Scan::End;
    }
    let c0 = s.get_char(j);
    proof {
        lemma_skip_ws_props(sv, pos as int);
    }
    if c0 == '{' {
        return Scan::Tok(Token { kind: TokenKind::BraceOpen, start: j, end: j + 1 });
    }
    if c0 == '}' {
        return Scan::Tok(Token { kind: TokenKind::BraceClose, start: j, end: j + 1 });
    }
    if c0 == '(' {
        return Scan::Tok(Token { kind: TokenKind::ParenOpen, start: j, end: j + 1 });
    }
    if c0 == ')' {
        return Scan::Tok(Token { kind: TokenKind::ParenClose, start: j, end: j + 1 });
    }
    if c0 == '[' {
        return Scan::Tok(Token { kind: TokenKind::BracketOpen, start: j, end: j + 1 });
    }
    if c0 == ']' {
        return Scan::Tok(Token { kind: TokenKind::BracketClose, start: j, end: j + 1 });
    }
    if c0 == ':' {
        return Scan::Tok(Token { kind: TokenKind::Colon, start: j, end: j + 1 });
    }
    if c0 == '=' {
        return Scan::Tok(Token { kind: TokenKind::Equals, start: j, end: j + 1 });
    }
    if c0 == '!' {
        return Scan::Tok(Token { kind: TokenKind::Exclamation, start: j, end: j + 1 });
    }
    if c0 == '?' {
        return Scan::Tok(Token { kind: TokenKind::Question, start: j, end: j + 1 });
    }
    if c0 == '&' {
        return Scan::Tok(Token { kind: TokenKind::Ampersand, start: j, end: j + 1 });
    }
    if c0 == '|' {
        return Scan::Tok(Token { kind: TokenKind::Pipe, start: j, end: j + 1 });
    }
    if c0 == '.' {
        if n - j >= 3 && s.get_char(j + 1) == '.' && s.get_char(j + 2) == '.' {
            return Scan::Tok(Token { kind: TokenKind::Ellipsis, start: j, end: j + 3 });
        }
        return Scan::Fail(LexingError::UnknownToken);
    }
    if c0 == '"' {
        if n - j >= 3 && s.get_char(j + 1) == '"' && s.get_char(j + 2) == '"' {
            return Scan::Tok(
                Token { kind: TokenKind::BlockStringDelimiter, start: j, end: j + 3 },
            );
        }
        let mut k: usize = j + 1;
        let mut found: Option<usize> = None;
        loop
            invariant_except_break
                n == sv.len(),
                s@ == sv,
                j < k <= n,
                string_body_end(sv, (j + 1) as int) == string_body_end(sv, k as int),
            ensures
                s@ == sv,
                match found {
                    Some(e) => string_body_end(sv, (j + 1) as int) == Some(e as int) && j < e
                        <= n,
                    None => string_body_end(sv, (j + 1) as int) is None,
                },
            decreases n - k,
        {
            if k >= n {
                found = None;
                break ;
            }
            let c = s.get_char(k);
            if c == '"' {
                found = Some(k + 1);
                break ;
            } else if c == '\\' {
                if k + 1 < n && s.get_char(k + 1) != '\n' {
                    k = k + 2;
                } else {
                    found = None;
                    break ;
                }
            } else {
                k = k + 1;
            }
        }
        match found {
            None => {
                return Scan::Fail(LexingError::UnknownToken);
            },
            Some(e) => {
                let mut t: usize = j;
                let mut has_nl: bool = false;
                while t < e
                    invariant
                        n == sv.len(),
                        s@ == sv,
                        j <= t <= e <= n,
                        has_nl == has_newline(sv, j as int, t as int),
                    decreases e - t,
                {
                    let c = s.get_char(t);
                    if c == '\n' || c == '\r' {
                        has_nl = true;
                    }
                    proof {
                        if has_newline(sv, j as int, t as int) || c == '\n' || c == '\r' {
                            assert(has_newline(sv, j as int, (t + 1) as int));
                        } else {
                            assert(forall|q: int|
                                j <= q < t + 1 ==> !(sv[q] == '\n' || sv[q] == '\r'));
                        }
                    }
                    t = t + 1;
                }
                if has_nl {
                    let off = byte_offset_of(s, j);
                    return Scan::Fail(LexingError::UnterminatedString(off));
                }
                return Scan::Tok(Token { kind: TokenKind::StringLit, start: j, end: e });
            },
        }
    }
    if c0 == '-' || is_digit_exec(c0) {
        let p: usize = if c0 == '-' {
            j + 1
        } else {
            j
        };
        if p >= n || !is_digit_exec(s.get_char(p)) {
            return Scan::Fail(LexingError::UnknownToken);
        }
        let d1 = digit_run_end(s, p, n);
        if n - d1 >= 2 && s.get_char(d1) == '.' && is_digit_exec(s.get_char(d1 + 1)) {
            let d2 = digit_run_end(s, d1 + 1, n);
            if d2 < n && s.get_char(d2) == 'e' {
                let mut kk: usize = d2 + 1;
                if kk < n && s.get_char(kk) == '-' {
                    kk = d2 + 2;
                }
                if kk < n && is_digit_exec(s.get_char(kk)) {
                    let e2 = digit_run_end(s, kk, n);
                    return Scan::Tok(Token { kind: TokenKind::FloatLit, start: j, end: e2 });
                }
                return Scan::Tok(Token { kind: TokenKind::FloatLit, start: j, end: d2 });
            }
            return Scan::Tok(Token { kind: TokenKind::FloatLit, start: j, end: d2 });
        }
        return Scan::Tok(Token { kind: TokenKind::IntLit, start: j, end: d1 });
    }
    if c0 == '@' {
        if n - j >= 2 && is_ident_start_exec(s.get_char(j + 1)) {
            let e = ident_run_end(s, j + 1, n);
            return Scan::Tok(Token { kind: TokenKind::Directive, start: j, end: e });
        }
        return Scan::Fail(LexingError::UnknownToken);
    }
    if c0 == '$' {
        if n - j >= 2 && is_ident_start_exec(s.get_char(j + 1)) {
            let e = ident_run_end(s, j + 1, n);
            return Scan::Tok(Token { kind: TokenKind::Variable, start: j, end: e });
        }
        return Scan::Fail(LexingError::UnknownToken);
    }
    if is_ident_start_exec(c0) {
        let e = ident_run_end(s, j, n);
        let is_bool = (e - j == 4 && s.get_char(j) == 't' && s.get_char(j + 1) == 'r'
            && s.get_char(j + 2) == 'u' && s.get_char(j + 3) == 'e') || (e - j == 5
            && s.get_char(j) == 'f' && s.get_char(j + 1) == 'a' && s.get_char(j + 2) == 'l'
            && s.get_char(j + 3) == 's' && s.get_char(j + 4) == 'e');
        if is_bool {
            return Scan::Tok(Token { kind: TokenKind::BoolLit, start: j, end: e });
        }
        return Scan::Tok(Token { kind: TokenKind::Identifier, start: j, end: e });
    }
    Scan::Fail(LexingError::UnknownToken)
}

} // verus!
