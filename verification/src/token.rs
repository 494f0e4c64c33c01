use vstd::prelude::*;

verus! {

/// The category of a lexed token.
#[derive(Debug, Clone, Copy, PartialEq, Eq, Structural)]
pub enum TokenKind {
    Code,
    LineComment,
    BlockComment,
    StringLiteral,
    Newline,
}

/// What a token denotes: its kind and the characters it carries.
pub struct Lexeme {
    pub kind: TokenKind,
    pub text: Seq<char>,
}

/// A lexed token. For comments, `text` is the comment body without its
/// delimiters; for every other kind it is the source text itself.
#[derive(Debug, Clone)]
pub struct Token {
    pub kind: TokenKind,
    pub text: String,
}

impl View for Token {
    type V = Lexeme;

    open spec fn view(&self) -> Lexeme {
        Lexeme { kind: self.kind, text: self.text@ }
    }
}

/// The lexemes of a sequence of tokens.
pub open spec fn lexemes(tokens: Seq<Token>) -> Seq<Lexeme> {
    tokens.map_values(|t: Token| t@)
}

impl Token {
    pub fn new(kind: TokenKind, text: String) -> (t: Token)
        ensures
            t@ == (Lexeme { kind, text: text@ }),
    {
        Token { kind, text }
    }
}

} // verus!
