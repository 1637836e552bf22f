# multistream

A tree token writer that splits a serialized abstract syntax tree into one byte
stream per kind of content: declarations, references, tags, strings, numbers,
booleans and list lengths. Tags, strings, declarations and references are
written as their index in a dictionary ranked by number of occurrences, so that
frequent labels get small numbers; the dictionaries of tags and strings may be
written in a header before the contents.

The library under `src/` is verified with Verus:

- `tree`, `writer`: the tree is an arena of labelled nodes whose children
  always precede them; `TreeTokenWriter` adds nodes and, in `done`, writes the
  whole output, whose bytes its contract gives exactly.
- `numbering`: literal references are numbered against the declarations of
  the enclosing scopes; undeclared names are declared at the top.
- `tally`, `ranking`, `serialize`, `header`: occurrence counts, the ranking of
  dictionary entries, the content streams and the header dictionaries.
- `label`, `encoding`, `target`: labels, their byte encodings and the streams.
- `category`, `statistics`, `text`: per-category values and byte counts.

`app/` holds what the library does not: floating-point values and random
options.
