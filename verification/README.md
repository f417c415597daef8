# engramai

A memory system for agents. Memories have a type, a layer, strengths and an
importance; they are found by their words or by an embedding, linked with each
other when they are recalled together, strengthened or weakened by feedback,
merged with others that are alike, and synchronised between devices.

`src/` is the library. It is verified with Verus: every function has a
contract. The modules whose names end in `_laws`, and `convergence`, state what
holds of several functions together.

- `memory`, `statistics`, `compression`, `meta`: the memory system.
- `store`, `index`, `links`, `ranking`, `vector`: the store and its searches.
- `sync`: snapshots of a store, and their merge.
- `sqlite`, `pg`: rows and queries of the databases.
- `text`, `content`, `feedback`, `times`, `types`: texts, times and values.
- `binary`, `datum`, `format`, `rounding`, `exact`, `numbers`: IEEE 754 numbers,
  held as bits and computed with integers, so that contracts can speak of
  strengths and scores exactly.
- `host`, `notation`: what comes from outside of the library: identifiers, the
  time, and texts in the formats of others.

`app/` is ordinary Rust around it: files, JSON, SQL, and the interface of the
cognitive models.
