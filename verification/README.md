# lang_parser

A small grammar-driven parser, verified with Verus.

A grammar is written as rules `name -> alternative | alternative ... ;`, where an
alternative is a sequence of quoted terminals (`'text'`, with the escapes `\\`,
`\n`, `\t`) and rule names. `Interpreter::add_interpreter` reads such a text into
the interpreter's grammar; `Interpreter::parse` then parses an input from a start
rule, trying for each rule the first alternative that can start on the next
input character, and returns a parse tree or an error message.

Layout:

- `src/stream.rs` — `CharStream`, a character stream with one character of lookahead.
- `src/text.rs` — character classes (`char::is_alphabetic`, `char::is_alphanumeric`) and decimal rendering.
- `src/grammar.rs` — grammar types, their mathematical views, and the rule table (a grammar is a map from rule names to alternatives).
- `src/reader.rs` — reading grammar texts; each reader is specified by a spec function from the text to what is read and what is left.
- `src/interp.rs` — parsing inputs against a grammar, specified with an explicit recursion depth.
- `src/laws.rs` — properties that hold for all inputs.
- `app/main.rs` — the command-line program: reads a grammar file and a program file.
