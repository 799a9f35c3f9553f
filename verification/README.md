# structure_of_arrays

A structure of arrays: many values of one struct type, stored field by field.
Each field has a column of fixed-size byte chunks, and all columns share one
buffer, each aligned to its field's alignment.

- `src/metadata.rs`: `FieldLayout`, the `StructMetadata` trait (the layout and
  offset of each field), the `ByteRepr` trait (a value's byte representation,
  whose implementations promise that the fields' bytes give the value back),
  and the model of an element as the byte strings of its fields.
- `src/soa.rs`: `Soa<T, N>` and its operations, each with its contract over
  that model; the invariant `wf` says where the columns lie in the buffer.
- `src/bytes.rs`: copying runs of bytes.
- `src/laws.rs`: properties that relate the operations to one another.
- `src/derive.rs`: the code that deriving `Aos` produces for a struct, from the
  struct's source text (parsed with `syn`) or from its name and fields. The
  derived code gives the `StructMetadata` impl and the column accessors; a
  struct stored in a `Soa` also needs a `ByteRepr` impl written by hand.
- `app/lib.rs`: turns a token stream into text for
  `derive::derive_from_source`, and the derived code back into tokens. It is
  an ordinary library function, not a `#[proc_macro_derive]` entry.
