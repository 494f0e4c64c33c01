# uncomment

A language-aware comment lexer, verified with Verus. Source text is split into
code, string literals, newlines and comments according to per-language rules;
the result can be stripped of its comments, counted, or listed.

- `src/scan.rs`: the lexical grammar as spec functions (`next_lexeme`, `lex`).
- `src/lexer.rs`: the executable lexer; `Lexer::tokenize` is proved to return
  exactly `lex` of its input.
- `src/emitter.rs`: stripping, counting and listing comments.
- `src/rules.rs`: language rules and the extension index.
- `src/laws.rs`: properties of the whole (tokens cover the source, stripping
  only removes comments, ...).
- `app/`: the command-line tool (argument parsing, files, TOML definitions).
