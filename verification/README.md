# binjs

Scope annotation of a JSON abstract syntax tree, and the variable-length
integer format of its binary encoding, written in Verus with their
contracts proved.

- `src/bytes/varnum.rs`: the variable-length format for `u32`, its decoder,
  and the law that what is written is read back.
- `src/ast/annotation.rs`: the stack of contexts kept while walking a tree,
  the declaration and reference passes, storing and loading scope
  information, and the laws that relate entering, leaving, storing and
  loading.
- `src/ast/json.rs`, `src/ast/names.rs`, `src/ast/grammar.rs`,
  `src/ast/library.rs`: JSON values, sets of names, the grammar lookups and
  the field names that the passes use.
- `app/`: reading and writing through `std::io`, and conversion between
  `serde_json` values and the library's JSON values.
