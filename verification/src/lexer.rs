//! The lexer: turns source characters into tokens by the rules of a language.
use vstd::prelude::*;
use vstd::string::StrSliceExecFns;
use crate::rules::{byte_len, LanguageRules, RulesModel};
use crate::scan::{
    block_comment_lexeme, brace_end, char_literal_follows, close_from, hash_run,
    lemma_lex_from_step, lemma_line_end_bounds, lemma_next_lexeme_advances, lemma_preferred_is,
    lemma_preferred_matches, lex_from, line_comment_lexeme, matches_at, next_lexeme,
    preferred, raw_closes_at, raw_end, raw_string_at, string_end, is_preferred,
};
use crate::text::{chars_to_string, line_end_from};
use crate::token::{lexemes, Token, TokenKind};

verus! {

/// The character views of a sequence of string slices.
pub open spec fn views(v: Seq<&str>) -> Seq<Seq<char>> {
    v.map_values(|s: &str| s@)
}

/// An optional index as an optional integer.
pub open spec fn opt_int(o: Option<usize>) -> Option<int> {
    match o {
        Some(k) => Some(k as int),
        None => None,
    }
}

/// Scans `src` from the start, one token at a time.
pub struct Lexer<'a> {
    src: &'a [char],
    pos: usize,
    rules: &'a LanguageRules,
}

/// Whether `pat` occurs in `src` at `pos`.
fn matches_here(src: &[char], pos: usize, pat: &str) -> (b: bool)
    ensures
        b == matches_at(src@, pos as int, pat@),
{
    let n = pat.unicode_len();
    let len = src.len();
    if n > len || pos > len - n {
        return false;
    }
    let mut k: usize = 0;
    while k < n
        invariant
            n == pat@.len(),
            len == src@.len(),
            pos + n <= len,
            k <= n,
            forall|t: int| 0 <= t < k ==> src@[pos + t] == pat@[t],
        decreases n - k,
    {
        if src[pos + k] != pat.get_char(k) {
            assert(src@.subrange(pos as int, pos + n)[k as int] != pat@[k as int]);
            return false;
        }
        k += 1;
    }
    assert(src@.subrange(pos as int, pos + n) =~= pat@);
    true
}

/// The first occurrence of `close` at or after `start`.
fn find_close(src: &[char], close: &str, start: usize) -> (r: Option<usize>)
    requires
        start <= src@.len(),
    ensures
        opt_int(r) == close_from(src@, close@, start as int),
        r matches Some(k) ==> start <= k && k + close@.len() <= src@.len(),
{
    let mut i = start;
    while i < src.len()
        invariant
            start <= i <= src@.len(),
            close_from(src@, close@, start as int) == close_from(src@, close@, i as int),
        decreases src@.len() - i,
    {
        if matches_here(src, i, close) {
            return Some(i);
        }
        i += 1;
    }
    None
}

/// The end of a string literal whose body starts at `start`.
fn scan_string(src: &[char], close: &str, escape: bool, multiline: bool, start: usize) -> (e:
    usize)
    requires
        start <= src@.len(),
    ensures
        e as int == string_end(src@, close@, escape, multiline, start as int),
        start <= e <= src@.len(),
{
    let mut i = start;
    while i < src.len()
        invariant
            start <= i <= src@.len(),
            string_end(src@, close@, escape, multiline, start as int) == string_end(
                src@,
                close@,
                escape,
                multiline,
                i as int,
            ),
        decreases src@.len() - i,
    {
        if escape && src[i] == '\\' && i + 1 < src.len() {
            i += 2;
        } else if matches_here(src, i, close) {
            return i + close.unicode_len();
        } else if !multiline && src[i] == '\n' {
            return i;
        } else {
            i += 1;
        }
    }
    i
}

/// The end of the Rust raw string at `pos`, if one starts there.
fn raw_string_end(src: &[char], pos: usize) -> (r: Option<usize>)
    requires
        pos < src@.len(),
    ensures
        opt_int(r) == raw_string_at(src@, pos as int),
        r matches Some(e) ==> pos < e <= src@.len(),
{
    let len = src.len();
    if src[pos] != 'r' {
        return None;
    }
    let mut hashes: usize = 0;
    while pos + 1 + hashes < len && src[pos + 1 + hashes] == '#'
        invariant
            len == src@.len(),
            pos < len,
            pos + 1 + hashes <= len,
            hash_run(src@, pos + 1) == hashes + hash_run(src@, pos + 1 + hashes),
        decreases src@.len() - hashes,
    {
        hashes += 1;
    }
    let quote = pos + 1 + hashes;
    if quote >= src.len() || src[quote] != '"' {
        return None;
    }
    let ghost h = hashes as nat;
    let mut i = quote + 1;
    while i < len
        invariant
            len == src@.len(),
            quote + 1 <= i <= len,
            h == hashes,
            hash_run(src@, pos + 1) == h,
            src@[pos as int] == 'r',
            quote == pos + 1 + hashes,
            src@[quote as int] == '"',
            raw_end(src@, h, (quote + 1) as int) == raw_end(src@, h, i as int),
        decreases src@.len() - i,
    {
        if src[i] == '"' {
            let mut n: usize = 0;
            while i + 1 + n < len && n < hashes && src[i + 1 + n] == '#'
                invariant
                    len == src@.len(),
                    i < len,
                    i + 1 + n <= len,
                    n <= hashes,
                    forall|t: int| i + 1 <= t < i + 1 + n ==> src@[t] == '#',
                decreases hashes - n,
            {
                n += 1;
            }
            if n == hashes {
                assert(raw_closes_at(src@, h, i as int));
                return Some(i + 1 + hashes);
            }
            assert(!raw_closes_at(src@, h, i as int)) by {
                if i + 1 + n < src@.len() {
                    assert(src@[i + 1 + n] != '#');
                }
            }
        }
        i += 1;
    }
    Some(i)
}

/// The block comment openers of `rules`.
fn block_openers_of<'r>(rules: &'r LanguageRules) -> (v: Vec<&'r str>)
    ensures
        views(v@) == rules@.block_openers(),
{
    let mut v: Vec<&str> = Vec::new();
    let mut i: usize = 0;
    while i < rules.block_comments.len()
        invariant
            i <= rules.block_comments@.len(),
            v@.len() == i,
            rules@.block_openers().len() == rules.block_comments@.len(),
            forall|j: int| 0 <= j < i ==> (#[trigger] v@[j])@ == rules@.block_openers()[j],
        decreases rules.block_comments@.len() - i,
    {
        let s = rules.block_comments[i][0].as_str();
        assert(s@ == rules@.block_openers()[i as int]);
        v.push(s);
        i += 1;
    }
    assert(views(v@) =~= rules@.block_openers());
    v
}

/// The line comment openers of `rules`.
fn line_prefixes_of<'r>(rules: &'r LanguageRules) -> (v: Vec<&'r str>)
    ensures
        views(v@) == rules@.line_comments,
{
    let mut v: Vec<&str> = Vec::new();
    let mut i: usize = 0;
    while i < rules.line_comments.len()
        invariant
            i <= rules.line_comments@.len(),
            v@.len() == i,
            rules@.line_comments.len() == rules.line_comments@.len(),
            forall|j: int| 0 <= j < i ==> (#[trigger] v@[j])@ == rules@.line_comments[j],
        decreases rules.line_comments@.len() - i,
    {
        let s = rules.line_comments[i].as_str();
        assert(s@ == rules@.line_comments[i as int]);
        v.push(s);
        i += 1;
    }
    assert(views(v@) =~= rules@.line_comments);
    v
}

/// The string literal openers of `rules`.
fn string_openers_of<'r>(rules: &'r LanguageRules) -> (v: Vec<&'r str>)
    ensures
        views(v@) == rules@.string_openers(),
{
    let mut v: Vec<&str> = Vec::new();
    let mut i: usize = 0;
    while i < rules.strings.len()
        invariant
            i <= rules.strings@.len(),
            v@.len() == i,
            rules@.string_openers().len() == rules.strings@.len(),
            forall|j: int| 0 <= j < i ==> (#[trigger] v@[j])@ == rules@.string_openers()[j],
        decreases rules.strings@.len() - i,
    {
        let s = rules.strings[i].open.as_str();
        assert(s@ == rules@.string_openers()[i as int]);
        v.push(s);
        i += 1;
    }
    assert(views(v@) =~= rules@.string_openers());
    v
}

impl<'a> Lexer<'a> {
    /// The characters being lexed.
    pub closed spec fn source(&self) -> Seq<char> {
        self.src@
    }

    /// The position of the next character to lex.
    pub closed spec fn position(&self) -> int {
        self.pos as int
    }

    /// The rules the lexer follows.
    pub closed spec fn rules(&self) -> RulesModel {
        self.rules@
    }

    pub fn new(src: &'a [char], rules: &'a LanguageRules) -> (lexer: Self)
        ensures
            lexer.source() == src@,
            lexer.rules() == rules@,
            lexer.position() == 0,
    {
        Lexer { src, pos: 0, rules }
    }

    /// Lexes the rest of the source.
    pub fn tokenize(&mut self) -> (tokens: Vec<Token>)
        requires
            old(self).rules().always_advances(),
        ensures
            lexemes(tokens@) == lex_from(old(self).source(), old(self).rules(), old(self).position()),
            final(self).source() == old(self).source(),
            final(self).rules() == old(self).rules(),
            old(self).position() <= old(self).source().len() ==> final(self).position()
                == final(self).source().len(),
    {
        let ghost src = self.src@;
        let ghost r = self.rules@;
        let ghost start = self.pos as int;
        let mut tokens: Vec<Token> = Vec::new();
        while self.pos < self.src.len()
            invariant
                self.src@ == src,
                self.rules@ == r,
                r.always_advances(),
                start <= src.len() ==> self.pos <= src.len(),
                lexemes(tokens@) + lex_from(src, r, self.pos as int) == lex_from(src, r, start),
            decreases src.len() - self.pos,
        {
            proof {
                lemma_lex_from_step(src, r, self.pos as int);
                lemma_next_lexeme_advances(src, r, self.pos as int);
            }
            let ghost before = tokens@;
            let ghost p = self.pos as int;
            let t = self.next_token();
            tokens.push(t);
            assert(lexemes(tokens@) =~= lexemes(before).push(t@));
            assert(lexemes(tokens@) + lex_from(src, r, self.pos as int) =~= lexemes(before) + (seq![
                t@,
            ] + lex_from(src, r, self.pos as int)));
        }
        assert(lex_from(src, r, self.pos as int) =~= Seq::empty());
        assert(lexemes(tokens@) =~= lexemes(tokens@) + lex_from(src, r, self.pos as int));
        tokens
    }

    /// Lexes the token at the current position and moves past it.
    fn next_token(&mut self) -> (tok: Token)
        requires
            old(self).pos < old(self).src@.len(),
            old(self).rules@.always_advances(),
        ensures
            final(self).src == old(self).src,
            final(self).rules == old(self).rules,
            (tok@, final(self).pos as int) == next_lexeme(
                old(self).src@,
                old(self).rules@,
                old(self).pos as int,
            ),
    {
        let src = self.src;
        let rules = self.rules;
        let pos = self.pos;
        if src[pos] == '\n' {
            self.pos = pos + 1;
            let text = chars_to_string(src, pos, pos + 1);
            assert(text@ =~= seq!['\n']);
            return Token::new(TokenKind::Newline, text);
        }
        if rules.raw_strings {
            if let Some(tok) = self.try_rust_raw_string() {
                return tok;
            }
        }
        let openers = block_openers_of(rules);
        if let Some(i) = self.preferred_opener(&openers) {
            proof {
                lemma_preferred_matches(rules@.block_openers(), src@, pos as int);
            }
            let pair = &rules.block_comments[i];
            return self.consume_block_comment(pair[0].as_str(), pair[1].as_str());
        }
        let prefixes = line_prefixes_of(rules);
        if let Some(i) = self.preferred_opener(&prefixes) {
            let prefix = &rules.line_comments[i];
            return self.consume_line_comment(prefix.as_str().unicode_len());
        }
        let opens = string_openers_of(rules);
        if let Some(i) = self.preferred_opener(&opens) {
            proof {
                lemma_preferred_matches(rules@.string_openers(), src@, pos as int);
            }
            let delim = &rules.strings[i];
            if !(delim.char_literal && !self.looks_like_char_literal()) {
                return self.consume_string(
                    delim.open.as_str(),
                    delim.close.as_str(),
                    delim.escape,
                    delim.multiline,
                );
            }
        }
        self.pos = pos + 1;
        Token::new(TokenKind::Code, chars_to_string(src, pos, pos + 1))
    }

    /// Lexes a line comment whose opener is `prefix_len` characters long.
    fn consume_line_comment(&mut self, prefix_len: usize) -> (tok: Token)
        requires
            old(self).pos + prefix_len <= old(self).src@.len(),
        ensures
            final(self).src == old(self).src,
            final(self).rules == old(self).rules,
            (tok@, final(self).pos as int) == line_comment_lexeme(
                old(self).src@,
                old(self).pos as int,
                prefix_len as nat,
            ),
    {
        let src = self.src;
        proof {
            assert(src@.len() == src.len());
        }
        let start = self.pos + prefix_len;
        let end = line_end_from(src, start);
        proof {
            lemma_line_end_bounds(src@, start as int);
        }
        self.pos = end;
        Token::new(TokenKind::LineComment, chars_to_string(src, start, end))
    }

    /// Lexes a block comment opened by `open` and closed by `close`.
    fn consume_block_comment(&mut self, open: &str, close: &str) -> (tok: Token)
        requires
            old(self).pos + open@.len() <= old(self).src@.len(),
        ensures
            final(self).src == old(self).src,
            final(self).rules == old(self).rules,
            (tok@, final(self).pos as int) == block_comment_lexeme(
                old(self).src@,
                old(self).pos as int,
                open@,
                close@,
            ),
    {
        let src = self.src;
        proof {
            assert(src@.len() == src.len());
        }
        let start = self.pos + open.unicode_len();
        match find_close(src, close, start) {
            Some(k) => {
                self.pos = k + close.unicode_len();
                Token::new(TokenKind::BlockComment, chars_to_string(src, start, k))
            },
            None => {
                self.pos = src.len();
                Token::new(TokenKind::BlockComment, chars_to_string(src, start, src.len()))
            },
        }
    }

    /// Lexes a string literal with the given delimiters.
    fn consume_string(&mut self, open: &str, close: &str, escape: bool, multiline: bool) -> (tok:
        Token)
        requires
            old(self).pos + open@.len() <= old(self).src@.len(),
        ensures
            final(self).src == old(self).src,
            final(self).rules == old(self).rules,
            ({
                let end = string_end(
                    old(self).src@,
                    close@,
                    escape,
                    multiline,
                    old(self).pos + open@.len(),
                );
                &&& final(self).pos == end
                &&& tok@.kind == TokenKind::StringLiteral
                &&& tok@.text == old(self).src@.subrange(old(self).pos as int, end)
            }),
    {
        let src = self.src;
        proof {
            assert(src@.len() == src.len());
        }
        let pos = self.pos;
        let start = pos + open.unicode_len();
        let end = scan_string(src, close, escape, multiline, start);
        self.pos = end;
        Token::new(TokenKind::StringLiteral, chars_to_string(src, pos, end))
    }

    /// Lexes a Rust raw string at the current position, if one starts there.
    fn try_rust_raw_string(&mut self) -> (r: Option<Token>)
        requires
            old(self).pos < old(self).src@.len(),
        ensures
            final(self).src == old(self).src,
            final(self).rules == old(self).rules,
            match raw_string_at(old(self).src@, old(self).pos as int) {
                Some(end) => {
                    &&& r matches Some(t)
                    &&& t@.kind == TokenKind::StringLiteral
                    &&& t@.text == old(self).src@.subrange(old(self).pos as int, end)
                    &&& final(self).pos == end
                },
                None => r is None && final(self).pos == old(self).pos,
            },
    {
        let src = self.src;
        let pos = self.pos;
        match raw_string_end(src, pos) {
            Some(end) => {
                self.pos = end;
                Some(Token::new(TokenKind::StringLiteral, chars_to_string(src, pos, end)))
            },
            None => None,
        }
    }

    /// Whether a character literal follows the quote at the current position.
    fn looks_like_char_literal(&self) -> (b: bool)
        requires
            self.pos < self.src@.len(),
        ensures
            b == char_literal_follows(self.src@, self.pos as int),
    {
        let src = self.src;
        let len = src.len();
        let mut i = self.pos + 1;
        if i >= len {
            return false;
        }
        if src[i] == '\\' {
            i += 1;
            if i >= len {
                return false;
            }
            if src[i] == 'u' && i + 1 < len && src[i + 1] == '{' {
                i += 2;
                let ghost from = i as int;
                while i < len && src[i] != '}' && src[i] != '\n'
                    invariant
                        len == src@.len(),
                        from <= i <= len,
                        brace_end(src@, from) == brace_end(src@, i as int),
                    decreases len - i,
                {
                    i += 1;
                }
                if i >= len || src[i] != '}' {
                    return false;
                }
                i += 1;
            } else {
                i += 1;
            }
        } else if src[i] == '\n' || src[i] == '\'' {
            return false;
        } else {
            i += 1;
        }
        i < len && src[i] == '\''
    }

    /// The index of the pattern to take at the current position: the
    /// longest in bytes among those that occur there, the first on ties.
    fn preferred_opener(&self, pats: &Vec<&str>) -> (r: Option<usize>)
        ensures
            opt_int(r) == preferred(views(pats@), self.src@, self.pos as int),
            r matches Some(k) ==> k < pats@.len(),
    {
        let ghost ps = views(pats@);
        let mut best: Option<usize> = None;
        let mut best_len: usize = 0;
        let mut k: usize = 0;
        while k < pats.len()
            invariant
                k <= pats@.len(),
                ps == views(pats@),
                match best {
                    None => forall|j: int|
                        0 <= j < k ==> !matches_at(self.src@, self.pos as int, #[trigger] ps[j]),
                    Some(b) => {
                        &&& b < k
                        &&& matches_at(self.src@, self.pos as int, ps[b as int])
                        &&& best_len == byte_len(ps[b as int])
                        &&& forall|j: int|
                            0 <= j < k && matches_at(self.src@, self.pos as int, #[trigger] ps[j])
                                ==> byte_len(ps[j]) < byte_len(ps[b as int]) || (byte_len(ps[j])
                                == byte_len(ps[b as int]) && b <= j)
                    },
                },
            decreases pats@.len() - k,
        {
            let p = pats[k];
            assert(ps[k as int] == p@);
            if self.peek_str(p) {
                let n = p.len();
                match best {
                    None => {
                        best = Some(k);
                        best_len = n;
                    },
                    Some(_) => {
                        if n > best_len {
                            best = Some(k);
                            best_len = n;
                        }
                    },
                }
            }
            k += 1;
        }
        proof {
            match best {
                Some(b) => {
                    lemma_preferred_is(ps, self.src@, self.pos as int, b as int);
                },
                None => {
                    assert(!exists|i: int| is_preferred(ps, self.src@, self.pos as int, i));
                },
            }
        }
        best
    }

    /// Whether `s` occurs at the current position.
    fn peek_str(&self, s: &str) -> (b: bool)
        ensures
            b == matches_at(self.src@, self.pos as int, s@),
    {
        matches_here(self.src, self.pos, s)
    }
}

} // verus!
