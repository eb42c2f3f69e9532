# cairo_block_builder

A verified library for two steps of the Cairo compiler:

- building the lowered blocks of a function, with `BlockBuilder`;
- the signatures and type infos of Sierra functions and types.

## Block builders

A block builder maps the semantic variables of a function, and their members, to lowered
variables, and emits the statements that take structs apart and put them together again. Sealed
blocks are merged behind a match with `merge_and_end_with_match`, and several builders are joined
into one with `merge_block_builders`.

Each step of a builder is given as a function of its state (`state`, `merge` and `joining`), and each
method is proved to take exactly that step. A step says in `ok` whether it can be taken; the methods
require that, and then do not panic.

| module          | holds                                                            |
|-----------------|------------------------------------------------------------------|
| `ids`, `types`  | plain ids and types                                              |
| `member_path`   | paths such as `a.b.c`                                            |
| `objects`       | lowered variables, statements and blocks                         |
| `context`       | what the lowering of a function reads and builds                 |
| `generators`    | emission of statements                                           |
| `recomposer`    | taking structs apart and putting them together                   |
| `refs`          | the mapping from semantic to lowered variables                   |
| `ordered`       | the insertion-ordered maps and sets of `cairo_lang_utils`        |
| `block_builder` | the builder: reads, writes, ends, closures, merging, joining     |
| `sierra`        | signatures and type infos, over a database of queries            |
| `sierra_db`     | a database whose queries were answered beforehand                |
| `laws`          | what holds of the library as a whole                             |

## Laws

The laws are proof functions. Those of `laws::meaning` and of the modules that build on it speak of
the contents of variables: in every valuation in which the emitted statements hold, reading a path
gives its contents, writing it changes no other, a merge or a join hands every path over, and a
closure gives back what it captured.

## Trusted calls

The library calls `cairo_lang_utils`, `cairo_lang_sierra`, `num_bigint`, `itertools` and `indent`. The
contracts of these calls are stated where they are made, and are not proved.

`app/` holds what is left: the showing of builders, and the conversions from and to the values of the
other crates of the compiler.
