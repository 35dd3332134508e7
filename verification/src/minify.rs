//! The minifier: drives the tokenizer over the source text, hands block
//! strings to the block-string scanner, and emits each token's exact
//! source slice with a one-token lookback spacing decision.

use crate::block_string::{
    block_scan, dedent_spec, join_nl, lemma_block_scan_le, parse_block_string, print_spec,
};
use crate::lexer::{
    byte_offset, lemma_skip_ws_props, lemma_token_at_le, next_token, skip_ws,
    str_unterminated_at, token_at, LexingError, Scan, Token, TokenKind,
};
use vstd::prelude::*;

verus! {

/// A token that neither is a structural punctuator nor reads like one (a
/// variable or a directive): names, numbers, booleans, string literals and
/// block-string delimiters.
pub open spec fn spec_is_non_punctuator(k: TokenKind) -> bool {
    !(k == TokenKind::BraceOpen || k == TokenKind::BraceClose || k == TokenKind::ParenOpen || k
        == TokenKind::ParenClose || k == TokenKind::BracketOpen || k == TokenKind::BracketClose
        || k == TokenKind::Colon || k == TokenKind::Equals || k == TokenKind::Exclamation || k
        == TokenKind::Question || k == TokenKind::Ellipsis || k == TokenKind::Ampersand || k
        == TokenKind::Pipe || k == TokenKind::Variable || k == TokenKind::Directive)
}

/// A token after which a space may still be owed even though it counts as
/// a punctuator for the rule above.
pub open spec fn spec_needs_space_after(k: TokenKind) -> bool {
    k == TokenKind::Variable || k == TokenKind::StringLit || k == TokenKind::Identifier || k
        == TokenKind::Directive
}

/// A token before which such a space is owed.
pub open spec fn spec_needs_space_before(k: TokenKind) -> bool {
    k == TokenKind::Identifier || k == TokenKind::BlockStringDelimiter || k == TokenKind::Ellipsis
}

/// The spacing rule: whether one space is emitted between the previously
/// emitted token and the current one.
pub open spec fn spec_needs_space(last: Option<TokenKind>, cur: TokenKind) -> bool {
    match last {
        Some(l) => if spec_is_non_punctuator(l) {
            spec_is_non_punctuator(cur) || cur == TokenKind::Ellipsis
        } else if spec_needs_space_after(l) {
            spec_needs_space_before(cur)
        } else {
            false
        },
        None => false,
    }
}

pub open spec fn last_kind(o: Option<Token>) -> Option<TokenKind> {
    match o {
        Some(t) => Some(t.kind),
        None => None,
    }
}

/// What minification yields from position `i` on, given the kind of the
/// last emitted token and the output emitted so far: each token's source
/// slice is appended after the owed spacing, a block-string delimiter
/// hands over to the block-string scan and re-print, and the first lexing
/// error aborts the whole result.
pub open spec fn minify_from(
    s: Seq<char>,
    i: int,
    last: Option<TokenKind>,
    acc: Seq<char>,
) -> Result<Seq<char>, LexingError>
    decreases s.len() - i,
        via minify_from_decreases
{
    if !(0 <= i <= s.len()) {
        Ok(acc)
    } else {
        let j = skip_ws(s, i);
        if j >= s.len() {
            Ok(acc)
        } else if str_unterminated_at(s, j) {
            Err(LexingError::UnterminatedString(byte_offset(s, j) as usize))
        } else {
            match token_at(s, j) {
                None => Err(LexingError::UnknownToken),
                Some(t) => {
                    let acc1: Seq<char> = if spec_needs_space(last, t.0) {
                        acc.push(' ')
                    } else {
                        acc
                    };
                    if t.0 == TokenKind::BlockStringDelimiter {
                        let sc = block_scan(s, t.1, Seq::empty(), Seq::empty());
                        minify_from(
                            s,
                            sc.1,
                            Some(t.0),
                            acc1 + print_spec(join_nl(dedent_spec(sc.0))),
                        )
                    } else {
                        minify_from(s, t.1, Some(t.0), acc1 + s.subrange(j, t.1))
                    }
                },
            }
        }
    }
}

#[via_fn]
proof fn minify_from_decreases(s: Seq<char>, i: int, last: Option<TokenKind>, acc: Seq<char>) {
    if 0 <= i <= s.len() {
        lemma_skip_ws_props(s, i);
        let j = skip_ws(s, i);
        if j < s.len() {
            lemma_token_at_le(s, j);
            match token_at(s, j) {
                Some(t) => {
                    lemma_block_scan_le(s, t.1, Seq::empty(), Seq::empty());
                },
                None => {},
            }
        }
    }
}

/// What [`minify`] returns on a whole document.
pub open spec fn minify_spec(s: Seq<char>) -> Result<Seq<char>, LexingError> {
    minify_from(s, 0, None, Seq::empty())
}

/// Whether a character spells one of the single-character structural
/// punctuator tokens.
pub open spec fn is_punct_char(c: char) -> bool {
    c == '{' || c == '}' || c == '(' || c == ')' || c == '[' || c == ']' || c == ':' || c == '='
        || c == '!' || c == '?' || c == '&' || c == '|'
}

/// A document made only of structural punctuators and ignored characters
/// (whitespace and commas).
pub open spec fn punctuator_document(s: Seq<char>) -> bool {
    forall|k: int| 0 <= k < s.len() ==> is_punct_char(s[k]) || crate::lexer::is_skip_char(s[k])
}

/// The punctuator characters of the text from position `i` on, in order.
pub open spec fn punctuators_of(s: Seq<char>, i: int) -> Seq<char>
    decreases s.len() - i,
{
    if 0 <= i < s.len() {
        if is_punct_char(s[i]) {
            seq![s[i]] + punctuators_of(s, i + 1)
        } else {
            punctuators_of(s, i + 1)
        }
    } else {
        Seq::empty()
    }
}

/// The kind of the last emitted token is a punctuator kind, or nothing was
/// emitted yet.
pub open spec fn punct_lookback(last: Option<TokenKind>) -> bool {
    match last {
        None => true,
        Some(k) => k == TokenKind::BraceOpen || k == TokenKind::BraceClose || k
            == TokenKind::ParenOpen || k == TokenKind::ParenClose || k == TokenKind::BracketOpen
            || k == TokenKind::BracketClose || k == TokenKind::Colon || k == TokenKind::Equals
            || k == TokenKind::Exclamation || k == TokenKind::Question || k
            == TokenKind::Ampersand || k == TokenKind::Pipe,
    }
}

proof fn lemma_punctuators_skip(s: Seq<char>, i: int)
    requires
        punctuator_document(s),
        0 <= i <= s.len(),
    ensures
        punctuators_of(s, i) == punctuators_of(s, skip_ws(s, i)),
    decreases s.len() - i,
{
    if i < s.len() {
        if crate::lexer::is_skip_char(s[i]) {
            lemma_punctuators_skip(s, i + 1);
        }
    }
}

proof fn lemma_minify_punctuators_from(
    s: Seq<char>,
    i: int,
    last: Option<TokenKind>,
    acc: Seq<char>,
)
    requires
        punctuator_document(s),
        0 <= i <= s.len(),
        punct_lookback(last),
    ensures
        minify_from(s, i, last, acc) == Ok::<Seq<char>, LexingError>(acc + punctuators_of(s, i)),
    decreases s.len() - i,
{
    lemma_skip_ws_props(s, i);
    lemma_punctuators_skip(s, i);
    let j = skip_ws(s, i);
    if j >= s.len() {
        assert(punctuators_of(s, j) == Seq::<char>::empty());
        assert(acc + punctuators_of(s, i) =~= acc);
    } else {
        assert(is_punct_char(s[j]));
        match token_at(s, j) {
            Some(t) => {
                assert(t.1 == j + 1);
                assert(punct_lookback(Some(t.0)));
                assert(!spec_needs_space(last, t.0));
                lemma_minify_punctuators_from(s, j + 1, Some(t.0), acc + s.subrange(j, j + 1));
                assert(punctuators_of(s, j) == seq![s[j]] + punctuators_of(s, j + 1));
                assert(s.subrange(j, j + 1) =~= seq![s[j]]);
                assert((acc + s.subrange(j, j + 1)) + punctuators_of(s, j + 1) =~= acc
                    + punctuators_of(s, i));
            },
            None => {
                assert(false);
            },
        }
    }
}

proof fn lemma_punctuators_all_punct(s: Seq<char>, i: int)
    requires
        0 <= i <= s.len(),
    ensures
        forall|k: int|
            0 <= k < punctuators_of(s, i).len() ==> is_punct_char(punctuators_of(s, i)[k]),
    decreases s.len() - i,
{
    if i < s.len() {
        lemma_punctuators_all_punct(s, i + 1);
        let res = punctuators_of(s, i);
        if is_punct_char(s[i]) {
            assert(res == seq![s[i]] + punctuators_of(s, i + 1));
            assert forall|k: int| 0 <= k < res.len() implies is_punct_char(res[k]) by {
                if k == 0 {
                    assert(res[k] == s[i]);
                } else {
                    assert(res[k] == punctuators_of(s, i + 1)[k - 1]);
                }
            }
        } else {
            assert(res == punctuators_of(s, i + 1));
            assert forall|k: int| 0 <= k < res.len() implies is_punct_char(res[k]) by {
                assert(res[k] == punctuators_of(s, i + 1)[k]);
            }
        }
    } else {
        assert(punctuators_of(s, i).len() == 0);
    }
}

proof fn lemma_punctuators_fixed(p: Seq<char>, i: int)
    requires
        0 <= i <= p.len(),
        forall|k: int| 0 <= k < p.len() ==> is_punct_char(p[k]),
    ensures
        punctuators_of(p, i) == p.skip(i),
    decreases p.len() - i,
{
    if i < p.len() {
        lemma_punctuators_fixed(p, i + 1);
        assert(seq![p[i]] + p.skip(i + 1) =~= p.skip(i));
    } else {
        assert(p.skip(i) =~= Seq::<char>::empty());
    }
}

/// Lexical equivalence, shown for the punctuator fragment: a document made
/// of structural punctuators and ignored characters minifies without error
/// to exactly its punctuator characters in order — every ignored character
/// is dropped, no space is inserted, and each token's source slice is kept
/// verbatim.
pub proof fn lemma_minify_punctuator_document(s: Seq<char>)
    requires
        punctuator_document(s),
    ensures
        minify_spec(s) == Ok::<Seq<char>, LexingError>(punctuators_of(s, 0)),
{
    lemma_minify_punctuators_from(s, 0, None, Seq::empty());
    assert(Seq::<char>::empty() + punctuators_of(s, 0) =~= punctuators_of(s, 0));
}

/// Idempotence, shown for the punctuator fragment: minifying the minified
/// form of a punctuator document gives that form back unchanged.
pub proof fn lemma_minify_idempotent_punctuators(s: Seq<char>)
    requires
        punctuator_document(s),
    ensures
        ({
            let out = punctuators_of(s, 0);
            minify_spec(s) == Ok::<Seq<char>, LexingError>(out) && minify_spec(out) == Ok::<
                Seq<char>,
                LexingError,
            >(out)
        }),
{
    let out = punctuators_of(s, 0);
    lemma_minify_punctuator_document(s);
    lemma_punctuators_all_punct(s, 0);
    lemma_minify_punctuator_document(out);
    lemma_punctuators_fixed(out, 0);
    assert(out.skip(0) =~= out);
}

/// The punctuator token a single punctuator character spells.
pub open spec fn punct_kind(c: char) -> TokenKind {
    if c == '{' {
        TokenKind::BraceOpen
    } else if c == '}' {
        TokenKind::BraceClose
    } else if c == '(' {
        TokenKind::ParenOpen
    } else if c == ')' {
        TokenKind::ParenClose
    } else if c == '[' {
        TokenKind::BracketOpen
    } else if c == ']' {
        TokenKind::BracketClose
    } else if c == ':' {
        TokenKind::Colon
    } else if c == '=' {
        TokenKind::Equals
    } else if c == '!' {
        TokenKind::Exclamation
    } else if c == '?' {
        TokenKind::Question
    } else if c == '&' {
        TokenKind::Ampersand
    } else {
        TokenKind::Pipe
    }
}

/// Each punctuator character as the (kind, source slice) pair its token
/// carries.
pub open spec fn punct_pairs(p: Seq<char>) -> Seq<(TokenKind, Seq<char>)> {
    Seq::new(p.len(), |k: int| (punct_kind(p[k]), seq![p[k]]))
}

proof fn lemma_token_stream_punct(s: Seq<char>, i: int)
    requires
        punctuator_document(s),
        0 <= i <= s.len(),
    ensures
        crate::lexer::token_stream_from(s, i) == Some(punct_pairs(punctuators_of(s, i))),
    decreases s.len() - i,
{
    lemma_skip_ws_props(s, i);
    lemma_punctuators_skip(s, i);
    let j = skip_ws(s, i);
    if j >= s.len() {
        assert(punct_pairs(punctuators_of(s, i)) =~= Seq::<(TokenKind, Seq<char>)>::empty());
    } else {
        assert(is_punct_char(s[j]));
        match token_at(s, j) {
            Some(t) => {
                assert(t.1 == j + 1);
                assert(t.0 == punct_kind(s[j]));
                lemma_token_stream_punct(s, j + 1);
                assert(s.subrange(j, j + 1) =~= seq![s[j]]);
                assert(punctuators_of(s, j) == seq![s[j]] + punctuators_of(s, j + 1));
                assert(seq![(t.0, s.subrange(j, t.1))] + punct_pairs(punctuators_of(s, j + 1))
                    =~= punct_pairs(punctuators_of(s, i)));
            },
            None => {
                assert(false);
            },
        }
    }
}

/// Lexical equivalence, shown for the punctuator fragment: tokenizing the
/// minified form of a punctuator document yields the very same sequence of
/// token kinds and source slices as tokenizing the document itself, and
/// neither scan hits an error.
pub proof fn lemma_lexical_equivalence_punctuators(s: Seq<char>)
    requires
        punctuator_document(s),
    ensures
        ({
            let out = punctuators_of(s, 0);
            &&& minify_spec(s) == Ok::<Seq<char>, LexingError>(out)
            &&& crate::lexer::token_stream_from(out, 0) == crate::lexer::token_stream_from(s, 0)
            &&& crate::lexer::token_stream_from(s, 0) is Some
        }),
{
    let out = punctuators_of(s, 0);
    lemma_minify_punctuator_document(s);
    lemma_token_stream_punct(s, 0);
    lemma_punctuators_all_punct(s, 0);
    assert(punctuator_document(out));
    lemma_token_stream_punct(out, 0);
    lemma_punctuators_fixed(out, 0);
    assert(out.skip(0) =~= out);
}

/// No fusion, first half: between two adjacent non-punctuator tokens the
/// spacing rule always emits the one separating space, whatever the kinds
/// are.
pub proof fn lemma_space_between_non_punctuators(last: TokenKind, cur: TokenKind)
    requires
        spec_is_non_punctuator(last),
        spec_is_non_punctuator(cur),
    ensures
        spec_needs_space(Some(last), cur),
{
}

/// No fusion, second half: between two adjacent punctuator-class tokens
/// the spacing rule emits no space — except before an ellipsis that
/// follows a variable or a directive, where a space is owed (`$a ...`
/// keeps its space).
pub proof fn lemma_no_space_between_punctuators(last: TokenKind, cur: TokenKind)
    requires
        !spec_is_non_punctuator(last),
        !spec_is_non_punctuator(cur),
        !((last == TokenKind::Variable || last == TokenKind::Directive) && cur
            == TokenKind::Ellipsis),
    ensures
        !spec_needs_space(Some(last), cur),
{
}

/// Whether the token is none of the structural punctuators, variables and
/// directives.
pub fn is_non_punctuator(token: &Token) -> (r: bool)
    ensures
        r == spec_is_non_punctuator(token.kind),
{
    match token.kind {
        TokenKind::BraceOpen => false,
        TokenKind::BraceClose => false,
        TokenKind::ParenOpen => false,
        TokenKind::ParenClose => false,
        TokenKind::BracketOpen => false,
        TokenKind::BracketClose => false,
        TokenKind::Colon => false,
        TokenKind::Equals => false,
        TokenKind::Exclamation => false,
        TokenKind::Question => false,
        TokenKind::Ellipsis => false,
        TokenKind::Ampersand => false,
        TokenKind::Pipe => false,
        TokenKind::Variable => false,
        TokenKind::Directive => false,
        _ => true,
    }
}

/// Whether a space may be owed after this token even though it counts as
/// a punctuator.
pub fn needs_space_after_token(token: &Token) -> (r: bool)
    ensures
        r == spec_needs_space_after(token.kind),
{
    match token.kind {
        TokenKind::Variable => true,
        TokenKind::StringLit => true,
        TokenKind::Identifier => true,
        TokenKind::Directive => true,
        _ => false,
    }
}

/// Whether a space owed by the previous token lands before this one.
pub fn needs_space_before_token(token: &Token) -> (r: bool)
    ensures
        r == spec_needs_space_before(token.kind),
{
    match token.kind {
        TokenKind::Identifier => true,
        TokenKind::BlockStringDelimiter => true,
        TokenKind::Ellipsis => true,
        _ => false,
    }
}

/// The spacing decision between the previously emitted token (if any) and
/// the current one.
pub fn needs_space(curr_token: &Token, last_token: &Option<Token>) -> (r: bool)
    ensures
        r == spec_needs_space(last_kind(*last_token), curr_token.kind),
{
    match last_token {
        Some(last) => {
            if is_non_punctuator(last) {
                is_non_punctuator(curr_token) || matches!(curr_token.kind, TokenKind::Ellipsis)
            } else if needs_space_after_token(last) {
                needs_space_before_token(curr_token)
            } else {
                false
            }
        },
        None => false,
    }
}

/// Strips the characters that are not significant to the meaning of a
/// GraphQL document: whitespace, commas and comments are removed, block
/// strings are dedented and re-printed, one space is kept only where two
/// adjacent tokens would otherwise fuse, and the first lexing error is
/// returned in place of any output.
pub fn minify(value: &str) -> (r: Result<String, LexingError>)
    ensures
        r matches Ok(out) ==> minify_spec(value@) == Ok::<Seq<char>, LexingError>(out@),
        r matches Err(e) ==> minify_spec(value@) == Err::<Seq<char>, LexingError>(e),
{
    let ghost sv = value@;
    let n = value.unicode_len();
    let mut out = String::new();
    let mut last: Option<Token> = None;
    let mut i: usize = 0;
    loop
        invariant
            n == sv.len(),
            value@ == sv,
            i <= n,
            minify_spec(sv) == minify_from(sv, i as int, last_kind(last), out@),
        decreases n - i,
    {
        let sc = next_token(value, i);
        proof {
            lemma_skip_ws_props(sv, i as int);
        }
        match sc {
            Scan::End => {
                return Ok(out);
            },
            Scan::Fail(e) => {
                return Err(e);
            },
            Scan::Tok(tok) => {
                proof {
                    lemma_token_at_le(sv, skip_ws(sv, i as int));
                }
                let ghost j = skip_ws(sv, i as int);
                let ghost accpre = out@;
                let sp = needs_space(&tok, &last);
                if sp {
                    out.append(" ");
                    proof {
                        reveal_strlit(" ");
                        assert(out@ =~= accpre.push(' '));
                    }
                }
                let ghost acc1 = out@;
                proof {
                    assert(acc1 == if spec_needs_space(last_kind(last), tok.kind) {
                        accpre.push(' ')
                    } else {
                        accpre
                    });
                }
                if tok.kind == TokenKind::BlockStringDelimiter {
                    let pb = parse_block_string(value, tok.end);
                    proof {
                        lemma_block_scan_le(sv, tok.end as int, Seq::empty(), Seq::empty());
                    }
                    out.append(pb.0.as_str());
                    proof {
                        let sc2 = block_scan(sv, tok.end as int, Seq::empty(), Seq::empty());
                        assert(out@ =~= acc1 + print_spec(join_nl(dedent_spec(sc2.0))));
                    }
                    i = pb.1;
                } else {
                    out.append(value.substring_char(tok.start, tok.end));
                    proof {
                        assert(out@ =~= acc1 + sv.subrange(j, tok.end as int));
                    }
                    i = tok.end;
                }
                last = Some(tok);
            },
        }
    }
}

} // verus!
