# loxrs

The front end of a Lox interpreter: a scanner that turns source text into
tokens and a recursive-descent parser that turns tokens into an expression
tree, with the printed forms of tokens, trees and errors. The library in
`src/` is written in Verus and verified; `app/` is the command-line program
around it (argument handling, reading files, the prompt loop, printing).

Layout of `src/`:

- `text.rs` — characters and strings: building strings, decimal numbers,
  UTF-8 byte lengths, the printed form of number literals.
- `token.rs` — token kinds, tokens and how a token is printed.
- `error.rs` — compile and runtime errors, their printed forms, exit codes.
- `scanner.rs` — the scanner, specified as a function of the source text.
- `lexing.rs` — facts about scanned tokens: every scanning step moves forward
  and never lowers the line; the tokens are the source's own text in order,
  lines count newlines, columns count the characters since the last newline,
  exactly one end-of-file token ends them, keywords and
  identifiers are told apart, and the parser can always use them; two texts
  joined by a newline scan to the tokens of each in turn.
- `ast.rs` — expression trees and how they are printed.
- `parser.rs` — the parser, specified by the grammar's rules.
- `grammar.rs` — the parser against the grammar: every result is a
  well-formed tree (precedence, left associativity) whose tokens are the
  input's prefix, and every well-formed tree is what its tokens parse to.
- `pipeline.rs` — running a source text up to printing its tokens or its
  expression: the lines to print, or the error.

Number literals are kept as the decimal text they were written with; they
print without superfluous zeros and always with a fractional part. For
literals of up to fifteen significant digits this is how the value reads as a
double, which is compared on examples in `tests/ast.rs` but not proved; longer
literals print all their digits where a double would round them.
