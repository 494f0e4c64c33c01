//! What the tool makes of a token stream: the source without its comments,
//! the number of comments, or a listing of them.
use vstd::prelude::*;
use vstd::string::StringExecFns;
use crate::text::{first_nonblank_line, nonblank_lines, push_char, to_chars, trim, trimmed};
use crate::token::{lexemes, Lexeme, Token, TokenKind};

verus! {

/// What stripping keeps of one token: code, strings and newlines stay as
/// they are, a line comment goes, a block comment becomes one space.
pub open spec fn stripped_piece(t: Lexeme) -> Seq<char> {
    match t.kind {
        TokenKind::LineComment => seq![],
        TokenKind::BlockComment => seq![' '],
        _ => t.text,
    }
}

/// The text that stripping makes of a token sequence.
pub open spec fn stripped(ts: Seq<Lexeme>) -> Seq<char>
    decreases ts.len(),
{
    if ts.len() == 0 {
        seq![]
    } else {
        stripped(ts.drop_last()) + stripped_piece(ts.last())
    }
}

/// The number of tokens of kind `k`.
pub open spec fn count_kind(ts: Seq<Lexeme>, k: TokenKind) -> nat
    decreases ts.len(),
{
    if ts.len() == 0 {
        0
    } else {
        count_kind(ts.drop_last(), k) + if ts.last().kind == k {
            1nat
        } else {
            0nat
        }
    }
}

/// The source without its comments: line comments removed, each block
/// comment replaced by a space.
pub fn emit_stripped(tokens: &[Token]) -> (out: String)
    ensures
        out@ == stripped(lexemes(tokens@)),
{
    let ghost ts = lexemes(tokens@);
    let mut out = String::new();
    let mut i: usize = 0;
    while i < tokens.len()
        invariant
            i <= tokens@.len(),
            ts == lexemes(tokens@),
            out@ == stripped(ts.take(i as int)),
        decreases tokens@.len() - i,
    {
        let tok = &tokens[i];
        assert(ts[i as int] == tok@);
        match tok.kind {
            TokenKind::Code | TokenKind::StringLiteral | TokenKind::Newline => {
                out.append(tok.text.as_str());
            },
            TokenKind::LineComment => {},
            TokenKind::BlockComment => {
                push_char(&mut out, ' ');
            },
        }
        assert(ts.take(i + 1).drop_last() =~= ts.take(i as int));
        i += 1;
    }
    assert(ts.take(i as int) =~= ts);
    out
}

/// The number of line comments and of block comments.
pub fn emit_count(tokens: &[Token]) -> (r: (usize, usize))
    ensures
        r.0 == count_kind(lexemes(tokens@), TokenKind::LineComment),
        r.1 == count_kind(lexemes(tokens@), TokenKind::BlockComment),
{
    let ghost ts = lexemes(tokens@);
    let mut lc: usize = 0;
    let mut bc: usize = 0;
    let mut i: usize = 0;
    while i < tokens.len()
        invariant
            i <= tokens@.len(),
            ts == lexemes(tokens@),
            lc == count_kind(ts.take(i as int), TokenKind::LineComment),
            bc == count_kind(ts.take(i as int), TokenKind::BlockComment),
            lc + bc <= i,
        decreases tokens@.len() - i,
    {
        let tok = &tokens[i];
        assert(ts[i as int] == tok@);
        match tok.kind {
            TokenKind::LineComment => lc += 1,
            TokenKind::BlockComment => bc += 1,
            _ => {},
        }
        assert(ts.take(i + 1).drop_last() =~= ts.take(i as int));
        i += 1;
    }
    assert(ts.take(i as int) =~= ts);
    (lc, bc)
}

/// One comment as the listing shows it.
pub struct ListedComment {
    pub line: int,
    pub text: Seq<char>,
}

/// One comment of a listing: the line it starts on (counted from 1) and the
/// text that stands for it.
#[derive(Debug, Clone)]
pub struct CommentEntry {
    pub line: usize,
    pub text: String,
}

impl View for CommentEntry {
    type V = ListedComment;

    open spec fn view(&self) -> ListedComment {
        ListedComment { line: self.line as int, text: self.text@ }
    }
}

/// How a block comment is shown: its first non-blank line, trimmed, or
/// `(empty)`, followed by an ellipsis when more non-blank lines follow,
/// inside `/* ` and ` */`.
pub open spec fn block_summary(body: Seq<char>) -> Seq<char> {
    let ls = nonblank_lines(body);
    "/* "@ + (if ls.len() > 0 {
        ls[0]
    } else {
        "(empty)"@
    }) + (if ls.len() > 1 {
        " \u{2026}"@
    } else {
        seq![]
    }) + " */"@
}

/// The listing of a token sequence: one entry per comment, in order, with
/// the number of newline tokens before it plus one as its line. A line
/// comment shows its body trimmed; a block comment its summary.
pub open spec fn listing(ts: Seq<Lexeme>) -> Seq<ListedComment>
    decreases ts.len(),
{
    if ts.len() == 0 {
        seq![]
    } else {
        let prev = ts.drop_last();
        let t = ts.last();
        let line = 1 + count_kind(prev, TokenKind::Newline) as int;
        match t.kind {
            TokenKind::LineComment => listing(prev).push(
                ListedComment { line, text: trim(t.text) },
            ),
            TokenKind::BlockComment => listing(prev).push(
                ListedComment { line, text: block_summary(t.text) },
            ),
            _ => listing(prev),
        }
    }
}

/// The entries of a listing, as values.
pub open spec fn entries(es: Seq<CommentEntry>) -> Seq<ListedComment> {
    es.map_values(|e: CommentEntry| e@)
}

fn summarize_block(body: &str) -> (s: String)
    ensures
        s@ == block_summary(body@),
{
    let chars = to_chars(body);
    let (first, more) = first_nonblank_line(&chars);
    let mut s = String::from_str("/* ");
    match first {
        Some(l) => s.append(l.as_str()),
        None => s.append("(empty)"),
    }
    if more {
        s.append(" \u{2026}");
    }
    s.append(" */");
    s
}

/// The comments of a token sequence, each with the line it starts on.
pub fn list_comments(tokens: &[Token]) -> (r: Vec<CommentEntry>)
    requires
        tokens@.len() < usize::MAX,
    ensures
        entries(r@) == listing(lexemes(tokens@)),
{
    let ghost ts = lexemes(tokens@);
    let mut out: Vec<CommentEntry> = Vec::new();
    let mut line: usize = 1;
    let mut i: usize = 0;
    while i < tokens.len()
        invariant
            i <= tokens@.len() < usize::MAX,
            ts == lexemes(tokens@),
            line == 1 + count_kind(ts.take(i as int), TokenKind::Newline),
            line <= 1 + i,
            entries(out@) == listing(ts.take(i as int)),
        decreases tokens@.len() - i,
    {
        let tok = &tokens[i];
        assert(ts[i as int] == tok@);
        assert(ts.take(i + 1).drop_last() =~= ts.take(i as int));
        let ghost before = out@;
        match tok.kind {
            TokenKind::Newline => line += 1,
            TokenKind::LineComment => {
                let chars = to_chars(tok.text.as_str());
                let text = trimmed(&chars, 0, chars.len());
                out.push(CommentEntry { line, text });
            },
            TokenKind::BlockComment => {
                out.push(CommentEntry { line, text: summarize_block(tok.text.as_str()) });
            },
            _ => {},
        }
        assert(entries(out@) =~= listing(ts.take(i + 1)));
        i += 1;
    }
    assert(ts.take(i as int) =~= ts);
    out
}

} // verus!
