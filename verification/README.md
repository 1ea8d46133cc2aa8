# nanonbt

Minecraft's NBT format, written and read by verified code.

- `src/` is the library, verified with Verus. Every function states what
  it returns or changes in its contract, and the laws the format keeps are
  proof functions beside the code they speak of:
  - `roundtrip`: for every type that both writes and reads, reading back a
    written payload gives the value back and takes exactly the bytes
    written; skipping it passes over exactly those bytes.
  - `document`: the same for whole documents.
  - `cesu8`: modified UTF-8 decodes what it encodes.
  - `be`: big-endian spellings read back as the numbers they spell.
  - `arrays`: NBT arrays read back as they were written.
  - `value`: a whole tree reads back as it was written, converts to
    itself, and every compound it reads holds its keys sorted, each once
    (the proofs are in `roundtrip`); `from_value` reads a typed value out
    of a tree by writing it and reading it back.
  - `ser`: what the serde-side serializer writes, the serde-side
    deserializer (`de`) reads back.
- `src/testkit` is a seeded generator and value generators for property
  tests, with golden outputs in `tests/rng.rs`.
- `tests/` runs the library on concrete values.
- `app/` holds what cannot be verified: serde's trait implementations
  around the decisions in `de` and `ser`, floats, and the property
  harness, which reads the environment and catches panics.
