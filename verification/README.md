# cornucopia

Reads annotated SQL files. The grammar splits a file into tokens; the library turns the tokens
of each query into its name, its parameters, its nullable columns and its SQL, in which indexed
bind parameters stand for the named ones, and checks the rules on parameters.

- `src/parser.rs`: from tokens to queries
- `src/validate.rs`: the rules on the parameters of a query
- `src/replace.rs`: replacing ranges of a string
- `src/error.rs`: errors, their places and their messages
- `src/text.rs`, `src/number.rs`, `src/search.rs`: byte offsets and lines, decimal text, first
  places
- `src/pair.rs`, `src/parsed.rs`: tokens, and what is read from them
- `src/laws.rs`: what holds of all queries that are read
- `app/`: runs the grammar and hands its tokens to the library
