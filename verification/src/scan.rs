//! The lexical grammar, as spec functions over the source characters: what
//! token starts at a position and where it ends.
use vstd::prelude::*;
use crate::rules::{byte_len, DelimModel, RulesModel};
use crate::token::{Lexeme, TokenKind};

verus! {

/// `pat` occurs in `src` starting at `pos`.
pub open spec fn matches_at(src: Seq<char>, pos: int, pat: Seq<char>) -> bool {
    &&& 0 <= pos
    &&& pos + pat.len() <= src.len()
    &&& src.subrange(pos, pos + pat.len()) == pat
}

/// Among the patterns `pats`, the one at index `i` is tried first at `pos`:
/// it occurs there, and every other pattern that occurs there is shorter in
/// bytes, or as long and defined later.
pub open spec fn is_preferred(pats: Seq<Seq<char>>, src: Seq<char>, pos: int, i: int) -> bool {
    &&& 0 <= i < pats.len()
    &&& matches_at(src, pos, pats[i])
    &&& forall|j: int|
        0 <= j < pats.len() && matches_at(src, pos, #[trigger] pats[j]) ==> byte_len(pats[j])
            < byte_len(pats[i]) || (byte_len(pats[j]) == byte_len(pats[i]) && i <= j)
}

/// The index of the pattern the lexer takes at `pos`, if any occurs there.
pub open spec fn preferred(pats: Seq<Seq<char>>, src: Seq<char>, pos: int) -> Option<int> {
    if exists|i: int| is_preferred(pats, src, pos, i) {
        Some(choose|i: int| is_preferred(pats, src, pos, i))
    } else {
        None
    }
}

/// The position of the first newline at or after `i`, or the end of `src`.
pub open spec fn line_end(src: Seq<char>, i: int) -> int
    decreases src.len() - i,
{
    if i < src.len() && src[i] != '\n' {
        line_end(src, i + 1)
    } else {
        i
    }
}

/// The first position at or after `i`, before the end, where `close` occurs.
pub open spec fn close_from(src: Seq<char>, close: Seq<char>, i: int) -> Option<int>
    decreases src.len() - i,
{
    if i < src.len() {
        if matches_at(src, i, close) {
            Some(i)
        } else {
            close_from(src, close, i + 1)
        }
    } else {
        None
    }
}

/// Where a string literal whose body starts at `i` ends: just past its
/// closer; at an unescaped newline (not consumed) when it is single-line; or
/// at the end of the source. With `escape`, a backslash and the character
/// after it are taken together.
pub open spec fn string_end(
    src: Seq<char>,
    close: Seq<char>,
    escape: bool,
    multiline: bool,
    i: int,
) -> int
    decreases src.len() - i,
{
    if i < src.len() {
        if escape && src[i] == '\\' && i + 1 < src.len() {
            string_end(src, close, escape, multiline, i + 2)
        } else if matches_at(src, i, close) {
            i + close.len()
        } else if !multiline && src[i] == '\n' {
            i
        } else {
            string_end(src, close, escape, multiline, i + 1)
        }
    } else {
        i
    }
}

/// The number of consecutive `#` starting at `i`.
pub open spec fn hash_run(src: Seq<char>, i: int) -> nat
    decreases src.len() - i,
{
    if 0 <= i < src.len() && src[i] == '#' {
        1 + hash_run(src, i + 1)
    } else {
        0
    }
}

/// A raw string with `hashes` hashes closes at `k`: a quote followed by that
/// many `#`.
pub open spec fn raw_closes_at(src: Seq<char>, hashes: nat, k: int) -> bool {
    &&& 0 <= k < src.len()
    &&& src[k] == '"'
    &&& k + 1 + hashes <= src.len()
    &&& forall|t: int| k + 1 <= t < k + 1 + hashes ==> src[t] == '#'
}

/// Where a raw string with `hashes` hashes, whose body starts at `i`, ends.
pub open spec fn raw_end(src: Seq<char>, hashes: nat, i: int) -> int
    decreases src.len() - i,
{
    if i < src.len() {
        if raw_closes_at(src, hashes, i) {
            i + 1 + hashes
        } else {
            raw_end(src, hashes, i + 1)
        }
    } else {
        i
    }
}

/// Where the Rust raw string starting at `pos` ends: `r`, any number of `#`,
/// then a quote opens one.
pub open spec fn raw_string_at(src: Seq<char>, pos: int) -> Option<int> {
    let hashes = hash_run(src, pos + 1);
    let quote = pos + 1 + hashes;
    if src[pos] == 'r' && quote < src.len() && src[quote] == '"' {
        Some(raw_end(src, hashes, quote + 1))
    } else {
        None
    }
}

/// The first position at or after `i` holding `}` or a newline, or the end.
pub open spec fn brace_end(src: Seq<char>, i: int) -> int
    decreases src.len() - i,
{
    if i < src.len() && src[i] != '}' && src[i] != '\n' {
        brace_end(src, i + 1)
    } else {
        i
    }
}

/// After the quote at `pos` comes a character literal: one character other
/// than a newline or quote, an escape `\x`, or a unicode escape `\u{...}`
/// on one line, then a closing quote.
pub open spec fn char_literal_follows(src: Seq<char>, pos: int) -> bool {
    let i = pos + 1;
    if i >= src.len() {
        false
    } else if src[i] == '\\' {
        let j = i + 1;
        if j >= src.len() {
            false
        } else if src[j] == 'u' && j + 1 < src.len() && src[j + 1] == '{' {
            let k = brace_end(src, j + 2);
            k < src.len() && src[k] == '}' && k + 1 < src.len() && src[k + 1] == '\''
        } else {
            j + 1 < src.len() && src[j + 1] == '\''
        }
    } else if src[i] == '\n' || src[i] == '\'' {
        false
    } else {
        i + 1 < src.len() && src[i + 1] == '\''
    }
}

/// A single character of code.
pub open spec fn code_lexeme(src: Seq<char>, pos: int) -> (Lexeme, int) {
    (Lexeme { kind: TokenKind::Code, text: src.subrange(pos, pos + 1) }, pos + 1)
}

/// A line comment whose opener is `open_len` characters long: its body runs
/// from after the opener to the end of the line, the newline excluded.
pub open spec fn line_comment_lexeme(src: Seq<char>, pos: int, open_len: nat) -> (Lexeme, int) {
    let start = pos + open_len;
    let end = line_end(src, start);
    (Lexeme { kind: TokenKind::LineComment, text: src.subrange(start, end) }, end)
}

/// A block comment: the body between the opener and the first closer after
/// it, or up to the end of the source when none follows.
pub open spec fn block_comment_lexeme(
    src: Seq<char>,
    pos: int,
    open: Seq<char>,
    close: Seq<char>,
) -> (Lexeme, int) {
    let start = pos + open.len();
    match close_from(src, close, start) {
        Some(k) => (Lexeme { kind: TokenKind::BlockComment, text: src.subrange(start, k) }, k
            + close.len()),
        None => (
            Lexeme { kind: TokenKind::BlockComment, text: src.subrange(start, src.len() as int) },
            src.len() as int,
        ),
    }
}

/// A string literal, delimiters included.
pub open spec fn string_lexeme(src: Seq<char>, pos: int, d: DelimModel) -> (Lexeme, int) {
    let end = string_end(src, d.close, d.escape, d.multiline, pos + d.open.len());
    (Lexeme { kind: TokenKind::StringLiteral, text: src.subrange(pos, end) }, end)
}

/// The token that starts at `pos`, and the position after it. Tried in
/// order: a newline; a raw string (when the rules have them); a block
/// comment; a line comment; a string literal; else one character of code.
pub open spec fn next_lexeme(src: Seq<char>, r: RulesModel, pos: int) -> (Lexeme, int) {
    if src[pos] == '\n' {
        (Lexeme { kind: TokenKind::Newline, text: seq!['\n'] }, pos + 1)
    } else if r.raw_strings && raw_string_at(src, pos) is Some {
        let end = raw_string_at(src, pos).unwrap();
        (Lexeme { kind: TokenKind::StringLiteral, text: src.subrange(pos, end) }, end)
    } else if preferred(r.block_openers(), src, pos) is Some {
        let pair = r.block_comments[preferred(r.block_openers(), src, pos).unwrap()];
        block_comment_lexeme(src, pos, pair.0, pair.1)
    } else if preferred(r.line_comments, src, pos) is Some {
        let prefix = r.line_comments[preferred(r.line_comments, src, pos).unwrap()];
        line_comment_lexeme(src, pos, prefix.len())
    } else if preferred(r.string_openers(), src, pos) is Some {
        let d = r.strings[preferred(r.string_openers(), src, pos).unwrap()];
        if d.char_literal && !char_literal_follows(src, pos) {
            code_lexeme(src, pos)
        } else {
            string_lexeme(src, pos, d)
        }
    } else {
        code_lexeme(src, pos)
    }
}

/// The tokens of `src` from `pos` on.
pub open spec fn lex_from(src: Seq<char>, r: RulesModel, pos: int) -> Seq<Lexeme>
    decreases src.len() - pos,
{
    if 0 <= pos < src.len() {
        let end = next_lexeme(src, r, pos).1;
        if pos < end <= src.len() {
            seq![next_lexeme(src, r, pos).0] + lex_from(src, r, end)
        } else {
            seq![]
        }
    } else {
        seq![]
    }
}

/// The tokens of `src`.
pub open spec fn lex(src: Seq<char>, r: RulesModel) -> Seq<Lexeme> {
    lex_from(src, r, 0)
}

/// The preferred pattern, when one is, is the one `preferred` names.
pub proof fn lemma_preferred_is(pats: Seq<Seq<char>>, src: Seq<char>, pos: int, i: int)
    requires
        is_preferred(pats, src, pos, i),
    ensures
        preferred(pats, src, pos) == Some(i),
{
    let c = choose|k: int| is_preferred(pats, src, pos, k);
    assert(is_preferred(pats, src, pos, c));
    assert(matches_at(src, pos, pats[c]) && matches_at(src, pos, pats[i]));
}

/// The preferred pattern occurs at the position.
pub proof fn lemma_preferred_matches(pats: Seq<Seq<char>>, src: Seq<char>, pos: int)
    requires
        preferred(pats, src, pos) is Some,
    ensures
        is_preferred(pats, src, pos, preferred(pats, src, pos).unwrap()),
{
}

pub proof fn lemma_line_end_bounds(src: Seq<char>, i: int)
    requires
        i <= src.len(),
    ensures
        i <= line_end(src, i) <= src.len(),
        i < src.len() && src[i] != '\n' ==> i < line_end(src, i),
        line_end(src, i) < src.len() ==> src[line_end(src, i)] == '\n',
        forall|k: int| i <= k < line_end(src, i) ==> src[k] != '\n',
    decreases src.len() - i,
{
    if i < src.len() && src[i] != '\n' {
        lemma_line_end_bounds(src, i + 1);
    }
}

pub proof fn lemma_close_from_bounds(src: Seq<char>, close: Seq<char>, i: int)
    ensures
        close_from(src, close, i) matches Some(k) ==> i <= k < src.len() && matches_at(
            src,
            k,
            close,
        ),
    decreases src.len() - i,
{
    if i < src.len() && !matches_at(src, i, close) {
        lemma_close_from_bounds(src, close, i + 1);
    }
}

pub proof fn lemma_string_end_bounds(
    src: Seq<char>,
    close: Seq<char>,
    escape: bool,
    multiline: bool,
    i: int,
)
    requires
        i <= src.len(),
    ensures
        i <= string_end(src, close, escape, multiline, i) <= src.len(),
    decreases src.len() - i,
{
    if i < src.len() {
        if escape && src[i] == '\\' && i + 1 < src.len() {
            lemma_string_end_bounds(src, close, escape, multiline, i + 2);
        } else if matches_at(src, i, close) {
        } else if !multiline && src[i] == '\n' {
        } else {
            lemma_string_end_bounds(src, close, escape, multiline, i + 1);
        }
    }
}

pub proof fn lemma_raw_end_bounds(src: Seq<char>, hashes: nat, i: int)
    requires
        i <= src.len(),
    ensures
        i <= raw_end(src, hashes, i) <= src.len(),
    decreases src.len() - i,
{
    if i < src.len() && !raw_closes_at(src, hashes, i) {
        lemma_raw_end_bounds(src, hashes, i + 1);
    }
}

/// Under well-formed rules, every token consumes at least one character and
/// none runs past the end.
pub proof fn lemma_next_lexeme_advances(src: Seq<char>, r: RulesModel, pos: int)
    requires
        r.always_advances(),
        0 <= pos < src.len(),
    ensures
        pos < next_lexeme(src, r, pos).1 <= src.len(),
{
    if src[pos] == '\n' {
    } else if r.raw_strings && raw_string_at(src, pos) is Some {
        let hashes = hash_run(src, pos + 1);
        lemma_raw_end_bounds(src, hashes, pos + 2 + hashes);
    } else if preferred(r.block_openers(), src, pos) is Some {
        let i = preferred(r.block_openers(), src, pos).unwrap();
        lemma_preferred_matches(r.block_openers(), src, pos);
        let pair = r.block_comments[i];
        assert(r.block_openers()[i] == pair.0);
        lemma_close_from_bounds(src, pair.1, pos + pair.0.len());
    } else if preferred(r.line_comments, src, pos) is Some {
        lemma_preferred_matches(r.line_comments, src, pos);
        let prefix = r.line_comments[preferred(r.line_comments, src, pos).unwrap()];
        let start = pos + prefix.len();
        lemma_line_end_bounds(src, start);
    } else if preferred(r.string_openers(), src, pos) is Some {
        let i = preferred(r.string_openers(), src, pos).unwrap();
        lemma_preferred_matches(r.string_openers(), src, pos);
        let d = r.strings[i];
        assert(r.string_openers()[i] == d.open);
        let start = pos + d.open.len();
        lemma_string_end_bounds(src, d.close, d.escape, d.multiline, start);
        if d.open.len() == 0 {
            if d.escape && src[pos] == '\\' && pos + 1 < src.len() {
                lemma_string_end_bounds(src, d.close, d.escape, d.multiline, pos + 2);
            } else if matches_at(src, pos, d.close) {
            } else {
                lemma_string_end_bounds(src, d.close, d.escape, d.multiline, pos + 1);
            }
        }
    } else {
    }
}

/// One step of lexing: the tokens from `pos` are the token at `pos`
/// followed by the tokens after it.
pub proof fn lemma_lex_from_step(src: Seq<char>, r: RulesModel, pos: int)
    requires
        r.always_advances(),
        0 <= pos < src.len(),
    ensures
        lex_from(src, r, pos) == seq![next_lexeme(src, r, pos).0] + lex_from(
            src,
            r,
            next_lexeme(src, r, pos).1,
        ),
{
    lemma_next_lexeme_advances(src, r, pos);
}

} // verus!
