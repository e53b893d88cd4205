# ddbug_parser

Turns the text that [ddbug](https://github.com/gimli-rs/ddbug) prints with
`-p all` for a C program into records, and the command line tool writes them
out as JSON.

- `src/` is the library, each function with a proved contract. `text` holds the string
  operations the parsers are built from, each specified over `Seq<char>`;
  `support` reads numbers, address ranges and `path:line:column` locations;
  `base`, `enums`, `structure`, `ftype`, `gvar`, `function`, `unit` and `file`
  parse one kind of block each; `parsing` splits the output into blocks and
  gathers the blocks of each translation unit.
- `app/` is the command line tool: argument handling, reading the input
  file, and writing the JSON.
- `tests/` runs the library on sample blocks.

Usage: `ddbugC_tojson -i dump.txt [-o output.json] [-d]`.
