# frogql

The verified core of a small property-graph engine, in Verus.

* `src/syntax` — the syntax trees of queries, patterns and expressions, with their printed forms.
* `src/typing` — the gradual type system: label, property, variable and path types, the type
  checker with its errors and warnings, schema inference, validation and printing.
* `src/model` — values, graphs in memory, and read access to a graph.
* `src/store` — pages and the bytes of a file of pages; strings, records, indexes and chains of
  pages; saving and loading a graph; a store that reads records on demand with changes held beside
  it; indexes on properties; graphs as documents and as scripts.
* `src/vector` — vector attributes: their files, exact and approximate neighbour search, and the
  proximity graph.
* `tests` — tests of the library.
* `app` — file access, environment switches, serialisation and floating-point arithmetic.

Contracts are stated over mathematical models: a graph is a `GraphModel`, a file a sequence of
pages, a value a `ValueView`. Properties that relate several functions stand beside them as public
proof functions.

Floating-point numbers are held by their IEEE 754 bits. Distances between vectors, and how a
floating-point number is printed, are answered by functions that the caller passes in.
