# kilojoule

The data structures and parsers of the kilojoule query language, written in Verus
and proved against their contracts.

- `byte_vec`, `heap_allocator`, `ring_buffer`: a growable byte buffer with aligned
  reads and writes, a slot allocator that reuses the smallest freed slot first, and
  block-linked buffers built on it.
- `reader`, `json_lexer`: a byte reader and a JSON lexer, stated as a state machine
  over the input (`lex_step`).
- `obj_core`, `object_collector`: the binary layout of lists, objects, integers and
  strings in a byte buffer, and the collector that stores one JSON value there
  (`collect_step`, `collect_run`).
- `ast_node_pool`, `syntax`, `parser`: the query parser. `syntax` says what reading a
  query gives (the tree, or the error and where it is reported); every parse function
  is proved to give exactly that.
- `val`, `parser_reducers`, `list_access`, `grammar`, `obj_pool`: the order of byte
  strings and their JSON escaping, the unescaping of string literals and format-string
  text, where list indexes and slices fall, and the token and rule types of the grammar.

`app/` is the `kj` program: it parses a query with the library and evaluates it. Query
values hold their numbers as `f64`, so the evaluator and the values live there, outside
the verified library. `tests/` runs the library on concrete inputs.
