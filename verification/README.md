# json_ink

An incremental JSON parser: the input may arrive in chunks, and between two
chunks the parser keeps the value read so far, complete or waiting for more
(`JsonValue::Inc..`). Numbers are kept as the integer parts they were written
with; `app/` turns them into floats for printing.

- `src/model.rs`: the model of values (`JsonTree`) and of the parser, as spec
  functions over the bytes of a chunk; `None` marks inputs on which the parser
  would panic or never return.
- `src/string_reader.rs`, `src/json_reader.rs`: the cursor over a chunk's bytes.
- `src/parsers/`: the values and the parser, each function proved to compute
  what the model says. `JsonInk::try_parse_part` reads a chunk where the parser
  can, and says so where it would panic or never return.
- `src/laws.rs`: properties of the parser as a whole, such as that a literal,
  a string or a number cut in two chunks reads as in one, and that reading on
  in an array or an object keeps what was read before.
- `app/main.rs`: reads lines from standard input and prints the value so far.
