# verethiel

Verifies, sorts and compares translation files (JSON documents whose values
are strings and whose maps nest) against a base file.

- `src/` is the verified library:
  - `tree.rs`: the mathematical model of a document and the specifications
    of every operation on it (lookup, key paths, walks that mark values,
    sorting after a base, dotted key text);
  - `translation.rs`: the document type and its operations, each proved to
    meet its specification. A map holds its entries as a vector of
    (name, entry) pairs; that no name occurs twice is the predicate
    `well_formed`, which every operation that changes a document is proved
    to keep. A `HashMap` was not used: vstd specifies it for `String` keys
    only under an assumption on the key type (`obeys_key_model`) that the
    crate cannot prove; no declared or opaque outside map was tried, since
    the map in question is std's own;
  - `keys.rs`: the forms a key path takes and its dotted text;
  - `json.rs`: the JSON text of a document, string literals written by
    `serde_json` and stated exactly;
  - `diff.rs`: missing and extra keys and the report that lists them;
  - `verify.rs`: validation of a translation against a base;
  - `walk.rs`: the decisions of the directory walks;
  - `options.rs`: the commands and their arguments;
  - `laws.rs`, `sort_laws.rs`, `shape_laws.rs`, `visit_laws.rs`: what holds
    of the operations across all inputs.
- `app/` is the command line program: it parses the arguments, reads JSON
  files, walks directories and writes the results.
- `tests/` exercises the library on concrete documents.
