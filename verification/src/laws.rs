//! Properties of the lexer and the emitters as a whole.
use vstd::prelude::*;
use crate::emitter::{block_summary, count_kind, listing, stripped, stripped_piece};
use crate::rules::{byte_len, RulesModel};
use crate::scan::{
    block_comment_lexeme, hash_run, is_preferred, lemma_close_from_bounds, lemma_line_end_bounds,
    lemma_next_lexeme_advances, lemma_preferred_is, lemma_preferred_matches, lex, lex_from,
    line_comment_lexeme, line_end, matches_at, next_lexeme, preferred, raw_end, raw_string_at,
    string_end,
};
use crate::text::{
    is_white_space, nonblank_lines, nonblank_lines_from, skip_space, skip_space_back, trim,
    trim_range,
};
use crate::token::{Lexeme, TokenKind};

verus! {

/// Where each token of `lex_from(src, r, pos)` starts and ends.
pub open spec fn lex_spans(src: Seq<char>, r: RulesModel, pos: int) -> Seq<(int, int)>
    decreases src.len() - pos,
{
    if 0 <= pos < src.len() {
        let end = next_lexeme(src, r, pos).1;
        if pos < end <= src.len() {
            seq![(pos, end)] + lex_spans(src, r, end)
        } else {
            seq![]
        }
    } else {
        seq![]
    }
}

/// The token `t` stands for `src[a..b]`: code is one character other than a
/// newline, a newline is one, a string literal is the text itself; a line
/// comment is a line-comment opener followed by its body, which runs up to a
/// newline (not included) or the end of the source; a block comment starts
/// with a block opener and its body runs up to a closer that ends the span,
/// or, unterminated, to the end of the source.
pub open spec fn stands_for(src: Seq<char>, r: RulesModel, t: Lexeme, a: int, b: int) -> bool {
    match t.kind {
        TokenKind::Code => b == a + 1 && src[a] != '\n' && t.text == src.subrange(a, b),
        TokenKind::Newline => b == a + 1 && src[a] == '\n' && t.text == src.subrange(a, b),
        TokenKind::StringLiteral => t.text == src.subrange(a, b),
        TokenKind::LineComment => {
            &&& exists|i: int|
                0 <= i < r.line_comments.len() && matches_at(src, a, #[trigger] r.line_comments[i])
                    && t.text == src.subrange(a + r.line_comments[i].len(), b)
            &&& b == src.len() || src[b] == '\n'
            &&& forall|k: int| 0 <= k < t.text.len() ==> t.text[k] != '\n'
        },
        TokenKind::BlockComment => exists|i: int|
            0 <= i < r.block_comments.len() && {
                let (open, close) = #[trigger] r.block_comments[i];
                &&& matches_at(src, a, open)
                &&& {
                    ||| matches_at(src, b - close.len(), close) && t.text == src.subrange(
                        a + open.len(),
                        b - close.len(),
                    )
                    ||| b == src.len() && t.text == src.subrange(a + open.len(), b)
                }
            },
    }
}

proof fn lemma_next_lexeme_stands_for(src: Seq<char>, r: RulesModel, pos: int)
    requires
        r.always_advances(),
        0 <= pos < src.len(),
    ensures
        stands_for(src, r, next_lexeme(src, r, pos).0, pos, next_lexeme(src, r, pos).1),
{
    lemma_next_lexeme_advances(src, r, pos);
    let (t, end) = next_lexeme(src, r, pos);
    if src[pos] == '\n' {
        assert(t.text =~= src.subrange(pos, end));
    } else if r.raw_strings && raw_string_at(src, pos) is Some {
    } else if preferred(r.block_openers(), src, pos) is Some {
        let i = preferred(r.block_openers(), src, pos).unwrap();
        lemma_preferred_matches(r.block_openers(), src, pos);
        let pair = r.block_comments[i];
        assert(r.block_openers()[i] == pair.0);
        lemma_close_from_bounds(src, pair.1, pos + pair.0.len());
        assert(t == block_comment_lexeme(src, pos, pair.0, pair.1).0);
    } else if preferred(r.line_comments, src, pos) is Some {
        let i = preferred(r.line_comments, src, pos).unwrap();
        lemma_preferred_matches(r.line_comments, src, pos);
        let start = pos + r.line_comments[i].len();
        lemma_line_end_bounds(src, start);
        assert(matches_at(src, pos, r.line_comments[i]));
        assert(t.text == src.subrange(start, end));
        assert forall|k: int| 0 <= k < t.text.len() implies t.text[k] != '\n' by {
            assert(t.text[k] == src[start + k]);
        }
    } else {
    }
}

proof fn lemma_cover_from(src: Seq<char>, r: RulesModel, pos: int)
    requires
        r.always_advances(),
        0 <= pos <= src.len(),
    ensures
        ({
            let ts = lex_from(src, r, pos);
            let sp = lex_spans(src, r, pos);
            &&& sp.len() == ts.len()
            &&& pos < src.len() ==> sp.len() > 0 && sp[0].0 == pos && sp.last().1 == src.len()
            &&& pos == src.len() ==> sp.len() == 0
            &&& forall|i: int| 0 <= i < sp.len() - 1 ==> (#[trigger] sp[i]).1 == sp[i + 1].0
            &&& forall|i: int|
                0 <= i < sp.len() ==> pos <= (#[trigger] sp[i]).0 < sp[i].1 <= src.len() && ts[i]
                    == next_lexeme(src, r, sp[i].0).0 && sp[i].1 == next_lexeme(src, r, sp[i].0).1
        }),
    decreases src.len() - pos,
{
    if pos < src.len() {
        lemma_next_lexeme_advances(src, r, pos);
        let end = next_lexeme(src, r, pos).1;
        lemma_cover_from(src, r, end);
        let ts = lex_from(src, r, pos);
        let sp = lex_spans(src, r, pos);
        let rest = lex_spans(src, r, end);
        assert(sp == seq![(pos, end)] + rest);
        assert forall|i: int| 0 <= i < sp.len() - 1 implies (#[trigger] sp[i]).1 == sp[i + 1].0 by {
            if i > 0 {
                assert(sp[i] == rest[i - 1]);
                assert(sp[i + 1] == rest[i]);
            }
        }
        assert forall|i: int|
            0 <= i < sp.len() implies pos <= (#[trigger] sp[i]).0 < sp[i].1 <= src.len() && ts[i]
                == next_lexeme(src, r, sp[i].0).0 && sp[i].1 == next_lexeme(src, r, sp[i].0).1 by {
            if i > 0 {
                assert(sp[i] == rest[i - 1]);
                assert(ts[i] == lex_from(src, r, end)[i - 1]);
            }
        }
    }
}

/// Lexing accounts for every character of the source, in order: the tokens'
/// spans follow one another from the start of the source to its end, each
/// span nonempty, and each token stands for its span (code, newlines and
/// string literals verbatim; comments as their opener, body and closer).
pub proof fn lemma_tokens_cover_source(src: Seq<char>, r: RulesModel)
    requires
        r.always_advances(),
    ensures
        ({
            let ts = lex(src, r);
            let sp = lex_spans(src, r, 0);
            &&& sp.len() == ts.len()
            &&& src.len() > 0 ==> sp[0].0 == 0 && sp.last().1 == src.len()
            &&& src.len() == 0 ==> ts.len() == 0
            &&& forall|i: int| 0 <= i < sp.len() - 1 ==> (#[trigger] sp[i]).1 == sp[i + 1].0
            &&& forall|i: int|
                0 <= i < sp.len() ==> (#[trigger] sp[i]).0 < sp[i].1 && stands_for(
                    src,
                    r,
                    ts[i],
                    sp[i].0,
                    sp[i].1,
                )
        }),
{
    lemma_cover_from(src, r, 0);
    let ts = lex(src, r);
    let sp = lex_spans(src, r, 0);
    assert forall|i: int| 0 <= i < sp.len() implies (#[trigger] sp[i]).0 < sp[i].1 && stands_for(
        src,
        r,
        ts[i],
        sp[i].0,
        sp[i].1,
    ) by {
        lemma_next_lexeme_stands_for(src, r, sp[i].0);
    }
}

/// A line comment never swallows the end of its line: the token after a
/// line comment, if any, is a newline.
pub proof fn lemma_line_comment_then_newline(src: Seq<char>, r: RulesModel)
    requires
        r.always_advances(),
    ensures
        forall|i: int|
            0 <= i < lex(src, r).len() - 1 && (#[trigger] lex(src, r)[i]).kind
                == TokenKind::LineComment ==> lex(src, r)[i + 1].kind == TokenKind::Newline,
{
    lemma_tokens_cover_source(src, r);
    lemma_cover_from(src, r, 0);
    let ts = lex(src, r);
    let sp = lex_spans(src, r, 0);
    assert forall|i: int|
        0 <= i < ts.len() - 1 && (#[trigger] ts[i]).kind == TokenKind::LineComment implies ts[i
        + 1].kind == TokenKind::Newline by {
        assert(stands_for(src, r, ts[i], sp[i].0, sp[i].1));
        assert(sp[i].1 == sp[i + 1].0);
        assert(sp[i + 1].0 < sp[i + 1].1 <= src.len());
        assert(src[sp[i + 1].0] == '\n');
    }
}

proof fn lemma_stripped_append(a: Seq<Lexeme>, b: Seq<Lexeme>)
    ensures
        stripped(a + b) == stripped(a) + stripped(b),
        count_kind(a + b, TokenKind::LineComment) == count_kind(a, TokenKind::LineComment)
            + count_kind(b, TokenKind::LineComment),
        count_kind(a + b, TokenKind::BlockComment) == count_kind(a, TokenKind::BlockComment)
            + count_kind(b, TokenKind::BlockComment),
    decreases b.len(),
{
    if b.len() == 0 {
        assert(a + b =~= a);
        assert(stripped(a) + stripped(b) =~= stripped(a));
    } else {
        lemma_stripped_append(a, b.drop_last());
        assert((a + b).drop_last() =~= a + b.drop_last());
        assert((a + b).last() == b.last());
        assert(stripped(a + b) =~= stripped(a) + stripped(b));
    }
}

proof fn lemma_stripped_from(src: Seq<char>, r: RulesModel, pos: int)
    requires
        r.always_advances(),
        0 <= pos <= src.len(),
    ensures
        stripped(lex_from(src, r, pos)).len() <= src.len() - pos,
        count_kind(lex_from(src, r, pos), TokenKind::LineComment) == 0 && count_kind(
            lex_from(src, r, pos),
            TokenKind::BlockComment,
        ) == 0 ==> stripped(lex_from(src, r, pos)) == src.subrange(pos, src.len() as int),
    decreases src.len() - pos,
{
    if pos < src.len() {
        lemma_next_lexeme_advances(src, r, pos);
        lemma_next_lexeme_stands_for(src, r, pos);
        let (t, end) = next_lexeme(src, r, pos);
        lemma_stripped_from(src, r, end);
        let rest = lex_from(src, r, end);
        assert(lex_from(src, r, pos) == seq![t] + rest);
        lemma_stripped_append(seq![t], rest);
        let one = seq![t];
        assert(one.last() == t);
        assert(one.drop_last() =~= Seq::<Lexeme>::empty());
        assert(stripped(one.drop_last()) == Seq::<char>::empty());
        assert(count_kind(one.drop_last(), TokenKind::LineComment) == 0);
        assert(count_kind(one.drop_last(), TokenKind::BlockComment) == 0);
        assert(stripped(one) =~= stripped_piece(t));
        if t.kind == TokenKind::LineComment {
            assert(count_kind(seq![t], TokenKind::LineComment) == 1);
        } else if t.kind == TokenKind::BlockComment {
            assert(count_kind(seq![t], TokenKind::BlockComment) == 1);
        } else {
            assert(count_kind(seq![t], TokenKind::LineComment) == 0);
            assert(count_kind(seq![t], TokenKind::BlockComment) == 0);
            assert(src.subrange(pos, src.len() as int) =~= src.subrange(pos, end) + src.subrange(
                end,
                src.len() as int,
            ));
        }
    } else {
        assert(src.subrange(pos, src.len() as int) =~= Seq::<char>::empty());
    }
}

/// Stripping never lengthens the source, and leaves source without
/// comments exactly as it was.
pub proof fn lemma_stripping_only_removes_comments(src: Seq<char>, r: RulesModel)
    requires
        r.always_advances(),
    ensures
        stripped(lex(src, r)).len() <= src.len(),
        count_kind(lex(src, r), TokenKind::LineComment) == 0 && count_kind(
            lex(src, r),
            TokenKind::BlockComment,
        ) == 0 ==> stripped(lex(src, r)) == src,
{
    lemma_stripped_from(src, r, 0);
    assert(src.subrange(0, src.len() as int) =~= src);
}

/// The listing shows one entry for each comment that the count reports.
pub proof fn lemma_listing_matches_count(ts: Seq<Lexeme>)
    ensures
        listing(ts).len() == count_kind(ts, TokenKind::LineComment) + count_kind(
            ts,
            TokenKind::BlockComment,
        ),
    decreases ts.len(),
{
    if ts.len() > 0 {
        lemma_listing_matches_count(ts.drop_last());
    }
}

/// A quote at `k` followed by `n` hashes, all inside `src`: what closes a
/// raw string opened with `n` hashes.
pub open spec fn raw_closer(src: Seq<char>, k: int, n: nat) -> bool {
    &&& 0 <= k
    &&& k + 1 + n <= src.len()
    &&& src[k] == '"'
    &&& forall|t: int| k + 1 <= t < k + 1 + n ==> src[t] == '#'
}

proof fn lemma_raw_end_first(src: Seq<char>, n: nat, i: int)
    requires
        0 <= i <= src.len(),
    ensures
        ({
            let e = raw_end(src, n, i);
            ||| e == src.len() && forall|k: int| i <= k < src.len() ==> !raw_closer(src, k, n)
            ||| i <= e - 1 - n && raw_closer(src, e - 1 - n, n) && forall|k: int|
                i <= k < e - 1 - n ==> !raw_closer(src, k, n)
        }),
    decreases src.len() - i,
{
    if i < src.len() {
        if crate::scan::raw_closes_at(src, n, i) {
            assert(raw_closer(src, i, n));
        } else {
            assert(!raw_closer(src, i, n));
            lemma_raw_end_first(src, n, i + 1);
        }
    }
}

proof fn lemma_hash_run_exact(src: Seq<char>, i: int, n: nat)
    requires
        0 <= i,
        i + n < src.len(),
        forall|t: int| i <= t < i + n ==> src[t] == '#',
        src[i + n] != '#',
    ensures
        hash_run(src, i) == n,
    decreases n,
{
    if n > 0 {
        lemma_hash_run_exact(src, i + 1, (n - 1) as nat);
    }
}

/// A Rust raw string opened by `r`, `n` hashes and a quote is one string
/// literal, copied verbatim, that ends just after the first quote followed
/// by `n` hashes (a quote followed by fewer hashes does not end it), or at
/// the end of the source when there is no such quote.
pub proof fn lemma_raw_string_extent(src: Seq<char>, r: RulesModel, pos: int, n: nat)
    requires
        r.raw_strings,
        0 <= pos,
        pos + 1 + n < src.len(),
        src[pos] == 'r',
        forall|t: int| pos + 1 <= t < pos + 1 + n ==> src[t] == '#',
        src[pos + 1 + n] == '"',
    ensures
        ({
            let (t, e) = next_lexeme(src, r, pos);
            let q = pos + 1 + n;
            &&& t.kind == TokenKind::StringLiteral
            &&& t.text == src.subrange(pos, e)
            &&& q < e <= src.len()
            &&& {
                ||| e == src.len() && forall|k: int| q < k < src.len() ==> !raw_closer(src, k, n)
                ||| q < e - 1 - n && raw_closer(src, e - 1 - n, n) && forall|k: int|
                    q < k < e - 1 - n ==> !raw_closer(src, k, n)
            }
        }),
{
    lemma_hash_run_exact(src, pos + 1, n);
    lemma_raw_end_first(src, n, pos + 2 + n);
}

/// In a literal whose delimiter honours escapes, a backslash and the
/// character after it are taken together, whatever that character is: the
/// literal's end is the same as if the scan resumed after the pair.
pub proof fn lemma_escape_takes_pair(
    src: Seq<char>,
    close: Seq<char>,
    escape: bool,
    multiline: bool,
    i: int,
)
    requires
        escape,
        0 <= i,
        i + 1 < src.len(),
        src[i] == '\\',
    ensures
        string_end(src, close, escape, multiline, i) == string_end(
            src,
            close,
            escape,
            multiline,
            i + 2,
        ),
{
}

/// A string literal whose body is scanned from `i` ends at the end of the
/// source, just after a closer that lies wholly inside the body, or, for a
/// single-line delimiter only, at a newline (not included). A multi-line
/// literal never stops at a newline, whether or not it honours escapes.
pub proof fn lemma_string_end_outcome(
    src: Seq<char>,
    close: Seq<char>,
    escape: bool,
    multiline: bool,
    i: int,
)
    requires
        0 <= i <= src.len(),
    ensures
        ({
            let e = string_end(src, close, escape, multiline, i);
            &&& i <= e <= src.len()
            &&& {
                ||| e == src.len()
                ||| i <= e - close.len() && matches_at(src, e - close.len(), close)
                ||| !multiline && e < src.len() && src[e] == '\n'
            }
        }),
    decreases src.len() - i,
{
    if i < src.len() {
        if escape && src[i] == '\\' && i + 1 < src.len() {
            lemma_string_end_outcome(src, close, escape, multiline, i + 2);
        } else if matches_at(src, i, close) {
        } else if !multiline && src[i] == '\n' {
        } else {
            lemma_string_end_outcome(src, close, escape, multiline, i + 1);
        }
    }
}

/// A multi-line literal goes on past a newline that is neither escaped nor
/// the start of its closer.
pub proof fn lemma_multiline_crosses_newline(
    src: Seq<char>,
    close: Seq<char>,
    escape: bool,
    i: int,
)
    requires
        0 <= i < src.len(),
        src[i] == '\n',
        !matches_at(src, i, close),
    ensures
        string_end(src, close, escape, true, i) == string_end(src, close, escape, true, i + 1),
{
}

proof fn best_upto(pats: Seq<Seq<char>>, src: Seq<char>, pos: int, n: int) -> (res: Option<int>)
    requires
        0 <= n <= pats.len(),
    ensures
        res matches Some(b) ==> {
            &&& 0 <= b < n
            &&& matches_at(src, pos, pats[b])
            &&& forall|j: int|
                0 <= j < n && matches_at(src, pos, #[trigger] pats[j]) ==> byte_len(pats[j])
                    < byte_len(pats[b]) || (byte_len(pats[j]) == byte_len(pats[b]) && b <= j)
        },
        res is None ==> forall|j: int| 0 <= j < n ==> !matches_at(src, pos, #[trigger] pats[j]),
    decreases n,
{
    if n == 0 {
        None
    } else {
        let prev = best_upto(pats, src, pos, n - 1);
        if matches_at(src, pos, pats[n - 1]) {
            match prev {
                None => Some(n - 1),
                Some(b) => if byte_len(pats[n - 1]) > byte_len(pats[b]) {
                    Some(n - 1)
                } else {
                    Some(b)
                },
            }
        } else {
            prev
        }
    }
}

proof fn lemma_preferred_exists(pats: Seq<Seq<char>>, src: Seq<char>, pos: int, j: int)
    requires
        0 <= j < pats.len(),
        matches_at(src, pos, pats[j]),
    ensures
        preferred(pats, src, pos) is Some,
{
    let b = best_upto(pats, src, pos, pats.len() as int);
    assert(b is Some);
    lemma_preferred_is(pats, src, pos, b.unwrap());
}

/// Where a block-comment opener occurs (and no newline or raw string starts),
/// the token is a block comment, even if a line-comment opener occurs there
/// too; it is opened by a block opener that occurs there, and no longer one
/// (in bytes) occurs there.
pub proof fn lemma_block_comment_first(src: Seq<char>, r: RulesModel, pos: int, j: int)
    requires
        0 <= pos < src.len(),
        src[pos] != '\n',
        r.raw_strings ==> raw_string_at(src, pos) is None,
        0 <= j < r.block_comments.len(),
        matches_at(src, pos, r.block_comments[j].0),
    ensures
        next_lexeme(src, r, pos).0.kind == TokenKind::BlockComment,
        exists|i: int|
            0 <= i < r.block_comments.len() && matches_at(src, pos, r.block_comments[i].0) && (
            forall|k: int|
                0 <= k < r.block_comments.len() && matches_at(src, pos, #[trigger] r.block_comments[k].0)
                    ==> byte_len(r.block_comments[k].0) < byte_len(r.block_comments[i].0) || (
                byte_len(r.block_comments[k].0) == byte_len(r.block_comments[i].0) && i <= k))
                && next_lexeme(src, r, pos) == block_comment_lexeme(
                src,
                pos,
                r.block_comments[i].0,
                r.block_comments[i].1,
            ),
{
    let pats = r.block_openers();
    assert(pats[j] == r.block_comments[j].0);
    lemma_preferred_exists(pats, src, pos, j);
    lemma_preferred_matches(pats, src, pos);
    let i = preferred(pats, src, pos).unwrap();
    assert(pats[i] == r.block_comments[i].0);
    assert forall|k: int|
        0 <= k < r.block_comments.len() && matches_at(src, pos, #[trigger] r.block_comments[k].0)
            implies byte_len(r.block_comments[k].0) < byte_len(r.block_comments[i].0) || (byte_len(
        r.block_comments[k].0,
    ) == byte_len(r.block_comments[i].0) && i <= k) by {
        assert(pats[k] == r.block_comments[k].0);
    }
}

/// Where a line-comment opener occurs and no block-comment opener does (and
/// no newline or raw string starts), the token is a line comment opened by a
/// line opener that occurs there, no longer one (in bytes) occurring there.
pub proof fn lemma_line_comment_next(src: Seq<char>, r: RulesModel, pos: int, j: int)
    requires
        0 <= pos < src.len(),
        src[pos] != '\n',
        r.raw_strings ==> raw_string_at(src, pos) is None,
        forall|i: int| 0 <= i < r.block_comments.len() ==> !matches_at(src, pos, #[trigger] r.block_comments[i].0),
        0 <= j < r.line_comments.len(),
        matches_at(src, pos, r.line_comments[j]),
    ensures
        next_lexeme(src, r, pos).0.kind == TokenKind::LineComment,
        exists|i: int|
            0 <= i < r.line_comments.len() && matches_at(src, pos, r.line_comments[i]) && (forall|
                k: int,
            |
                0 <= k < r.line_comments.len() && matches_at(src, pos, #[trigger] r.line_comments[k])
                    ==> byte_len(r.line_comments[k]) < byte_len(r.line_comments[i]) || (byte_len(
                r.line_comments[k],
            ) == byte_len(r.line_comments[i]) && i <= k)) && next_lexeme(src, r, pos) == line_comment_lexeme(src, pos, r.line_comments[i].len()),
{
    let bo = r.block_openers();
    assert forall|k: int| 0 <= k < bo.len() implies !is_preferred(bo, src, pos, k) by {
        assert(bo[k] == r.block_comments[k].0);
    }
    lemma_preferred_exists(r.line_comments, src, pos, j);
    lemma_preferred_matches(r.line_comments, src, pos);
}

proof fn lemma_skip_space_spec(s: Seq<char>, i: int, to: int)
    requires
        0 <= i <= to <= s.len(),
    ensures
        i <= skip_space(s, i, to) <= to,
        forall|k: int| i <= k < skip_space(s, i, to) ==> is_white_space(s[k]),
        skip_space(s, i, to) < to ==> !is_white_space(s[skip_space(s, i, to)]),
    decreases to - i,
{
    if i < to && is_white_space(s[i]) {
        lemma_skip_space_spec(s, i + 1, to);
    }
}

proof fn lemma_skip_space_back_spec(s: Seq<char>, from: int, j: int)
    requires
        0 <= from <= j <= s.len(),
    ensures
        from <= skip_space_back(s, from, j) <= j,
        forall|k: int| skip_space_back(s, from, j) <= k < j ==> is_white_space(s[k]),
        from < skip_space_back(s, from, j) ==> !is_white_space(s[skip_space_back(s, from, j) - 1]),
    decreases j - from,
{
    if from < j && is_white_space(s[j - 1]) {
        lemma_skip_space_back_spec(s, from, j - 1);
    }
}

/// `t` is `s` with its leading and trailing white space removed: a piece of
/// `s` with only white space before and after it, neither starting nor
/// ending with white space.
pub open spec fn is_trimmed_of(t: Seq<char>, s: Seq<char>) -> bool {
    exists|a: int, b: int|
        0 <= a <= b <= s.len() && t == s.subrange(a, b) && (forall|k: int|
            0 <= k < a ==> is_white_space(#[trigger] s[k])) && (forall|k: int|
            b <= k < s.len() ==> is_white_space(#[trigger] s[k])) && (a < b ==> !is_white_space(s[a])
            && !is_white_space(s[b - 1]))
}

/// Trimming removes exactly the white space at both ends.
pub proof fn lemma_trim_removes_outer_space(s: Seq<char>)
    ensures
        is_trimmed_of(trim(s), s),
{
    let a = skip_space(s, 0, s.len() as int);
    lemma_skip_space_spec(s, 0, s.len() as int);
    let b = skip_space_back(s, a, s.len() as int);
    lemma_skip_space_back_spec(s, a, s.len() as int);
    assert(trim(s) == s.subrange(a, b));
}

/// A line comment is listed, after the entries of the tokens before it, at
/// the line after the newlines before it, showing its whole body with the
/// leading and trailing white space removed.
pub proof fn lemma_listed_line_comment(ts: Seq<Lexeme>)
    requires
        ts.len() > 0,
        ts.last().kind == TokenKind::LineComment,
    ensures
        listing(ts).len() == listing(ts.drop_last()).len() + 1,
        listing(ts).drop_last() == listing(ts.drop_last()),
        listing(ts).last().line == 1 + count_kind(ts.drop_last(), TokenKind::Newline),
        is_trimmed_of(listing(ts).last().text, ts.last().text),
{
    lemma_trim_removes_outer_space(ts.last().text);
    assert(listing(ts).drop_last() =~= listing(ts.drop_last()));
}

/// A block comment's body holds no closer: the comment ends at the first
/// closer after its opener.
pub proof fn lemma_block_comment_ends_at_first_closer(
    src: Seq<char>,
    pos: int,
    open: Seq<char>,
    close: Seq<char>,
)
    requires
        0 <= pos,
        pos + open.len() <= src.len(),
    ensures
        ({
            let (t, e) = block_comment_lexeme(src, pos, open, close);
            let start = pos + open.len();
            &&& t.kind == TokenKind::BlockComment
            &&& start <= e <= src.len()
            &&& forall|k: int| start <= k < start + t.text.len() ==> !matches_at(src, k, close)
            &&& {
                ||| e == src.len() && t.text == src.subrange(start, e)
                    && forall|k: int| start <= k < src.len() ==> !matches_at(src, k, close)
                ||| t.text == src.subrange(start, e - close.len()) && start <= e - close.len()
                    && matches_at(src, e - close.len(), close)
            }
        }),
{
    lemma_close_first(src, close, pos + open.len());
}

proof fn lemma_close_first(src: Seq<char>, close: Seq<char>, i: int)
    requires
        0 <= i <= src.len(),
    ensures
        match crate::scan::close_from(src, close, i) {
            Some(k) => i <= k < src.len() && matches_at(src, k, close) && forall|j: int|
                i <= j < k ==> !matches_at(src, j, close),
            None => forall|j: int| i <= j < src.len() ==> !matches_at(src, j, close),
        },
    decreases src.len() - i,
{
    if i < src.len() && !matches_at(src, i, close) {
        lemma_close_first(src, close, i + 1);
    }
}

/// In a string literal, a closer that is not escaped ends it just after the
/// closer.
pub proof fn lemma_closer_ends_string(
    src: Seq<char>,
    close: Seq<char>,
    escape: bool,
    multiline: bool,
    i: int,
)
    requires
        0 <= i < src.len(),
        !(escape && src[i] == '\\' && i + 1 < src.len()),
        matches_at(src, i, close),
    ensures
        string_end(src, close, escape, multiline, i) == i + close.len(),
{
}

/// A single-line string literal ends at an unescaped newline that does not
/// start its closer, without taking the newline.
pub proof fn lemma_newline_ends_single_line_string(
    src: Seq<char>,
    close: Seq<char>,
    escape: bool,
    i: int,
)
    requires
        0 <= i < src.len(),
        src[i] == '\n',
        !matches_at(src, i, close),
    ensures
        string_end(src, close, escape, false, i) == i,
{
}

/// Any other character belongs to the string literal: the scan goes on
/// after it.
pub proof fn lemma_string_takes_plain_char(
    src: Seq<char>,
    close: Seq<char>,
    escape: bool,
    multiline: bool,
    i: int,
)
    requires
        0 <= i < src.len(),
        src[i] != '\n',
        !(escape && src[i] == '\\' && i + 1 < src.len()),
        !matches_at(src, i, close),
    ensures
        string_end(src, close, escape, multiline, i) == string_end(
            src,
            close,
            escape,
            multiline,
            i + 1,
        ),
{
}

/// A newline in the source is always a token of its own.
pub proof fn lemma_newline_token(src: Seq<char>, r: RulesModel, pos: int)
    requires
        0 <= pos < src.len(),
        src[pos] == '\n',
    ensures
        next_lexeme(src, r, pos) == (Lexeme { kind: TokenKind::Newline, text: seq!['\n'] }, pos + 1),
{
}

/// Where no comment opener occurs (and no newline or raw string starts), a
/// string opener that occurs there opens a string literal that runs from the
/// position to the end its delimiter gives, unless the preferred delimiter
/// is a character-literal one and no character literal follows, in which
/// case the character is code; where no string opener occurs either, the
/// character is code.
pub proof fn lemma_string_or_code_next(src: Seq<char>, r: RulesModel, pos: int)
    requires
        0 <= pos < src.len(),
        src[pos] != '\n',
        r.raw_strings ==> raw_string_at(src, pos) is None,
        forall|i: int| 0 <= i < r.block_comments.len() ==> !matches_at(src, pos, #[trigger] r.block_comments[i].0),
        forall|i: int| 0 <= i < r.line_comments.len() ==> !matches_at(src, pos, #[trigger] r.line_comments[i]),
    ensures
        (forall|i: int| 0 <= i < r.strings.len() ==> !matches_at(src, pos, #[trigger] r.strings[i].open))
            ==> next_lexeme(src, r, pos) == (Lexeme { kind: TokenKind::Code, text: seq![src[pos]] }, pos + 1),
        (exists|j: int| 0 <= j < r.strings.len() && matches_at(src, pos, #[trigger] r.strings[j].open))
            ==> exists|i: int|
            0 <= i < r.strings.len() && matches_at(src, pos, r.strings[i].open) && (forall|k: int|
                0 <= k < r.strings.len() && matches_at(src, pos, #[trigger] r.strings[k].open)
                    ==> byte_len(r.strings[k].open) < byte_len(r.strings[i].open) || (byte_len(
                r.strings[k].open,
            ) == byte_len(r.strings[i].open) && i <= k)) && if r.strings[i].char_literal
                && !crate::scan::char_literal_follows(src, pos) {
                next_lexeme(src, r, pos) == (Lexeme { kind: TokenKind::Code, text: seq![src[pos]] }, pos
                    + 1)
            } else {
                let e = string_end(
                    src,
                    r.strings[i].close,
                    r.strings[i].escape,
                    r.strings[i].multiline,
                    pos + r.strings[i].open.len(),
                );
                next_lexeme(src, r, pos) == (Lexeme { kind: TokenKind::StringLiteral, text: src.subrange(pos, e) }, e)
            },
{
    let bo = r.block_openers();
    assert forall|k: int| 0 <= k < bo.len() implies !is_preferred(bo, src, pos, k) by {
        assert(bo[k] == r.block_comments[k].0);
    }
    assert forall|k: int| 0 <= k < r.line_comments.len() implies !is_preferred(r.line_comments, src, pos, k) by {}
    assert(src.subrange(pos, pos + 1) =~= seq![src[pos]]);
    let so = r.string_openers();
    if forall|i: int| 0 <= i < r.strings.len() ==> !matches_at(src, pos, #[trigger] r.strings[i].open) {
        assert forall|k: int| 0 <= k < so.len() implies !is_preferred(so, src, pos, k) by {
            assert(so[k] == r.strings[k].open);
        }
    }
    if exists|j: int| 0 <= j < r.strings.len() && matches_at(src, pos, #[trigger] r.strings[j].open) {
        let j = choose|j: int| 0 <= j < r.strings.len() && matches_at(src, pos, #[trigger] r.strings[j].open);
        assert(so[j] == r.strings[j].open);
        lemma_preferred_exists(so, src, pos, j);
        lemma_preferred_matches(so, src, pos);
        let i = preferred(so, src, pos).unwrap();
        assert(so[i] == r.strings[i].open);
        assert forall|k: int|
            0 <= k < r.strings.len() && matches_at(src, pos, #[trigger] r.strings[k].open)
                implies byte_len(r.strings[k].open) < byte_len(r.strings[i].open) || (byte_len(
            r.strings[k].open,
        ) == byte_len(r.strings[i].open) && i <= k) by {
            assert(so[k] == r.strings[k].open);
        }
    }
}

/// Stripping works token by token: the stripped text of a concatenation is
/// the concatenation of the stripped texts, and so are the counts.
pub proof fn lemma_strip_concat(a: Seq<Lexeme>, b: Seq<Lexeme>)
    ensures
        stripped(a + b) == stripped(a) + stripped(b),
        count_kind(a + b, TokenKind::LineComment) == count_kind(a, TokenKind::LineComment)
            + count_kind(b, TokenKind::LineComment),
        count_kind(a + b, TokenKind::BlockComment) == count_kind(a, TokenKind::BlockComment)
            + count_kind(b, TokenKind::BlockComment),
{
    lemma_stripped_append(a, b);
}

/// What stripping and counting make of a single token: code, string
/// literals and newlines are kept as they are, a line comment disappears, a
/// block comment becomes one space; each comment counts once, under its
/// own kind.
pub proof fn lemma_strip_one_token(t: Lexeme)
    ensures
        stripped(seq![t]) == match t.kind {
            TokenKind::LineComment => Seq::<char>::empty(),
            TokenKind::BlockComment => seq![' '],
            _ => t.text,
        },
        count_kind(seq![t], TokenKind::LineComment) == (if t.kind == TokenKind::LineComment {
            1nat
        } else {
            0nat
        }),
        count_kind(seq![t], TokenKind::BlockComment) == (if t.kind == TokenKind::BlockComment {
            1nat
        } else {
            0nat
        }),
{
    let one = seq![t];
    assert(one.drop_last() =~= Seq::<Lexeme>::empty());
    assert(one.last() == t);
    assert(stripped(one) =~= stripped(Seq::<Lexeme>::empty()) + stripped_piece(t));
    assert(count_kind(one.drop_last(), TokenKind::LineComment) == 0);
    assert(count_kind(one.drop_last(), TokenKind::BlockComment) == 0);
}

/// `src[a..c]` is the body of a character literal: one character other than
/// a backslash, quote or newline; a backslash and any one character; or a
/// unicode escape `\u{...}` on one line.
pub open spec fn char_literal_body(src: Seq<char>, a: int, c: int) -> bool {
    ||| c == a + 1 && src[a] != '\\' && src[a] != '\'' && src[a] != '\n'
    ||| c == a + 2 && src[a] == '\\'
    ||| {
        &&& c >= a + 4
        &&& src[a] == '\\'
        &&& src[a + 1] == 'u'
        &&& src[a + 2] == '{'
        &&& src[c - 1] == '}'
        &&& forall|k: int| a + 3 <= k < c - 1 ==> src[k] != '}' && src[k] != '\n'
    }
}

proof fn lemma_brace_end_spec(src: Seq<char>, i: int)
    requires
        0 <= i <= src.len(),
    ensures
        i <= crate::scan::brace_end(src, i) <= src.len(),
        forall|k: int|
            i <= k < crate::scan::brace_end(src, i) ==> src[k] != '}' && src[k] != '\n',
        crate::scan::brace_end(src, i) < src.len() ==> (src[crate::scan::brace_end(src, i)] == '}'
            || src[crate::scan::brace_end(src, i)] == '\n'),
    decreases src.len() - i,
{
    if i < src.len() && src[i] != '}' && src[i] != '\n' {
        lemma_brace_end_spec(src, i + 1);
    }
}

/// After a quote, a character literal follows exactly when a closing quote
/// comes after a character-literal body.
pub proof fn lemma_char_literal_follows(src: Seq<char>, pos: int)
    requires
        0 <= pos < src.len(),
    ensures
        crate::scan::char_literal_follows(src, pos) <==> exists|c: int|
            pos + 1 < c < src.len() && src[c] == '\'' && char_literal_body(src, pos + 1, c),
{
    let a = pos + 1;
    if a < src.len() && src[a] == '\\' && a + 1 < src.len() && src[a + 1] == 'u' && a + 2
        < src.len() && src[a + 2] == '{' {
        let k = crate::scan::brace_end(src, a + 3);
        lemma_brace_end_spec(src, a + 3);
        if crate::scan::char_literal_follows(src, pos) {
            assert(char_literal_body(src, a, k + 1));
        }
        if exists|c: int| pos + 1 < c < src.len() && src[c] == '\'' && char_literal_body(src, a, c) {
            let c = choose|c: int|
                pos + 1 < c < src.len() && src[c] == '\'' && char_literal_body(src, a, c);
            assert(c >= a + 4);
            if k < c - 1 {
                assert(src[k] != '}' && src[k] != '\n');
            }
            assert(k == c - 1);
        }
    } else {
        if crate::scan::char_literal_follows(src, pos) {
            if src[a] == '\\' {
                assert(char_literal_body(src, a, a + 2));
            } else {
                assert(char_literal_body(src, a, a + 1));
            }
        }
    }
}

proof fn lemma_trim_range_spec(s: Seq<char>, i: int, e: int)
    requires
        0 <= i <= e <= s.len(),
    ensures
        is_trimmed_of(trim_range(s, i, e), s.subrange(i, e)),
        trim_range(s, i, e).len() > 0 <==> exists|k: int| i <= k < e && !is_white_space(s[k]),
{
    let a = skip_space(s, i, e);
    lemma_skip_space_spec(s, i, e);
    let b = skip_space_back(s, a, e);
    lemma_skip_space_back_spec(s, a, e);
    let sub = s.subrange(i, e);
    assert(sub.subrange(a - i, b - i) =~= s.subrange(a, b));
    assert(forall|k: int| 0 <= k < a - i ==> #[trigger] sub[k] == s[k + i]);
    assert(forall|k: int| b - i <= k < sub.len() ==> #[trigger] sub[k] == s[k + i]);
    if a < b {
        assert(!is_white_space(s[a]));
    } else {
        assert forall|k: int| i <= k < e implies is_white_space(s[k]) by {
            if k >= a {
                assert(b <= k);
            }
        }
    }
}

proof fn lemma_nonblank_nonempty(s: Seq<char>, i: int)
    requires
        0 <= i <= s.len(),
    ensures
        nonblank_lines_from(s, i).len() > 0 <==> exists|k: int|
            i <= k < s.len() && !is_white_space(s[k]),
    decreases s.len() - i,
{
    let e = line_end(s, i);
    lemma_line_end_bounds(s, i);
    lemma_trim_range_spec(s, i, e);
    if e < s.len() {
        lemma_nonblank_nonempty(s, e + 1);
        assert(is_white_space(s[e]));
        if exists|k: int| i <= k < s.len() && !is_white_space(s[k]) {
            let k = choose|k: int| i <= k < s.len() && !is_white_space(s[k]);
            if k < e {
            } else {
                assert(k > e);
            }
        }
    }
}

proof fn lemma_first_nonblank(s: Seq<char>, i: int, f: int) -> (r: (int, int))
    requires
        0 <= i <= f < s.len(),
        forall|k: int| i <= k < f ==> is_white_space(s[k]),
        !is_white_space(s[f]),
        i == 0 || s[i - 1] == '\n',
    ensures
        i <= r.0 <= f < r.1 <= s.len(),
        r.0 == 0 || s[r.0 - 1] == '\n',
        r.1 == s.len() || s[r.1] == '\n',
        forall|k: int| r.0 <= k < r.1 ==> s[k] != '\n',
        nonblank_lines_from(s, i).len() > 0,
        nonblank_lines_from(s, i)[0] == trim_range(s, r.0, r.1),
        nonblank_lines_from(s, i).len() > 1 <==> exists|k: int|
            r.1 <= k < s.len() && !is_white_space(s[k]),
    decreases s.len() - i,
{
    let e = line_end(s, i);
    lemma_line_end_bounds(s, i);
    lemma_trim_range_spec(s, i, e);
    if f < e {
        let rest = if e < s.len() {
            nonblank_lines_from(s, e + 1)
        } else {
            seq![]
        };
        assert(nonblank_lines_from(s, i) == seq![trim_range(s, i, e)] + rest);
        if e < s.len() {
            lemma_nonblank_nonempty(s, e + 1);
            assert(is_white_space(s[e]));
            if exists|k: int| e <= k < s.len() && !is_white_space(s[k]) {
                let k = choose|k: int| e <= k < s.len() && !is_white_space(s[k]);
                assert(k != e);
            }
        }
        (i, e)
    } else {
        assert(s[f] != '\n');
        assert(f != e);
        assert forall|k: int| i <= k < e implies is_white_space(s[k]) by {}
        assert(nonblank_lines_from(s, i) == nonblank_lines_from(s, e + 1));
        lemma_first_nonblank(s, e + 1, f)
    }
}

/// `s[a..b]` is a whole line of `s`: it holds no newline, and a newline or
/// the edge of `s` stands on each side.
pub open spec fn is_line(s: Seq<char>, a: int, b: int) -> bool {
    &&& 0 <= a <= b <= s.len()
    &&& a == 0 || s[a - 1] == '\n'
    &&& b == s.len() || s[b] == '\n'
    &&& forall|k: int| a <= k < b ==> s[k] != '\n'
}

/// An ellipsis when something other than white space follows position `b`
/// of `s`, nothing otherwise.
pub open spec fn more_marker(s: Seq<char>, b: int) -> Seq<char> {
    if exists|k: int| b <= k < s.len() && !is_white_space(s[k]) {
        " \u{2026}"@
    } else {
        Seq::<char>::empty()
    }
}

/// A block comment is listed, after the entries of the tokens before it, at
/// the line after the newlines before it. Its text is `/* `, then the first
/// line of its body that holds more than white space, trimmed (or
/// `(empty)` when there is none), then an ellipsis exactly when more than
/// white space follows that line, then ` */`.
pub proof fn lemma_listed_block_comment(ts: Seq<Lexeme>)
    requires
        ts.len() > 0,
        ts.last().kind == TokenKind::BlockComment,
    ensures
        listing(ts).len() == listing(ts.drop_last()).len() + 1,
        listing(ts).drop_last() == listing(ts.drop_last()),
        listing(ts).last().line == 1 + count_kind(ts.drop_last(), TokenKind::Newline),
        ({
            let body = ts.last().text;
            let text = listing(ts).last().text;
            &&& (forall|k: int| 0 <= k < body.len() ==> is_white_space(body[k])) ==> text
                == "/* "@ + "(empty)"@ + " */"@
            &&& forall|f: int|
                0 <= f < body.len() && !is_white_space(body[f]) && (forall|k: int|
                    0 <= k < f ==> is_white_space(body[k])) ==> exists|a: int, b: int|
                    a <= f < b && #[trigger] is_line(body, a, b) && exists|x: Seq<char>|
                        #[trigger] is_trimmed_of(x, body.subrange(a, b)) && text == "/* "@ + x
                            + more_marker(body, b) + " */"@
        }),
{
    assert(listing(ts).drop_last() =~= listing(ts.drop_last()));
    let body = ts.last().text;
    let text = listing(ts).last().text;
    assert(text == block_summary(body));
    lemma_nonblank_nonempty(body, 0);
    if forall|k: int| 0 <= k < body.len() ==> is_white_space(body[k]) {
        assert(nonblank_lines(body).len() == 0);
        assert(text =~= "/* "@ + "(empty)"@ + " */"@);
    }
    assert forall|f: int|
        0 <= f < body.len() && !is_white_space(body[f]) && (forall|k: int|
            0 <= k < f ==> is_white_space(body[k])) implies exists|a: int, b: int|
        a <= f < b && #[trigger] is_line(body, a, b) && exists|x: Seq<char>|
            #[trigger] is_trimmed_of(x, body.subrange(a, b)) && text == "/* "@ + x + more_marker(
                body,
                b,
            ) + " */"@ by {
        let (a, b) = lemma_first_nonblank(body, 0, f);
        lemma_trim_range_spec(body, a, b);
        let x = trim_range(body, a, b);
        assert(is_trimmed_of(x, body.subrange(a, b)));
        assert(is_line(body, a, b));
        assert(text =~= "/* "@ + x + more_marker(body, b) + " */"@);
    }
}

} // verus!
