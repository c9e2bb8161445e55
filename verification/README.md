# roc_parse

Reads Roc identifiers off UTF-8 source text: tags (`Foo`, `@Foo`), accesses
(`foo`, `foo.bar`, `Foo.Bar.baz.qux`), accessor functions (`.foo`) and type
names (`Result`, `Result.Result`). An identifier that goes wrong on the way,
such as `foo.Bar` or `foo_bar`, is given back as malformed, with what is wrong
and where, so that later stages can report it well.

Everything is verified with Verus, but for the calls into other crates and the
standard library that are named below.

* `ident` holds the types and the parsers. Each function says exactly what it
  returns for every input.
* `grammar` says what the parsers accept, as functions of the bytes alone, and
  `outcomes` what each parser makes of an input.
* `laws` proves what holds of the parsers as a whole: well-formed text is read
  back as what it is, whatever is parsed was there, and parsing moves over its
  text and nothing else. `text` and `forms` hold what these proofs rest on.
* `state`, `parser` and `keyword` hold the position in the input, what parsers
  take and give back, and the reserved words.
* `chars` and `arena` hold the trusted calls: into `encode_unicode` and the
  standard library for characters, and into `bumpalo` for lists of names.

Columns and the widths of identifiers have 16 bits. A line with more columns is
an error for a single name; the width of a longer identifier keeps its low 16
bits.
