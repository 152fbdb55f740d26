# cbor2 — verified CBOR building blocks

A library of CBOR (RFC 8949) components written in Verus, with every
function's behaviour stated in `requires`/`ensures` and proved.

- `float`: binary16/32/64 conversions on bit patterns, with the lossless
  narrowing used by preferred serialization.
- `codec`: the item-header encoder and decoder (`Encoder`, `Decoder`,
  `Header`), byte and text bodies, and borrowed slices.
- `value`, `canonical`, `canonical_laws`: the dynamic value model,
  deterministic encoding with both key orders, in-place canonicalization,
  and the laws that canonicalization keeps the deterministic encoding,
  sorts every map, is idempotent, and succeeds exactly where deterministic
  encoding does on values within the recursion limit.
- `cdn`, `hexfloat`: pieces of the diagnostic-notation parser: integers of
  any size and radix, IP literals (addresses read by `core::net`), float
  extensions and hexadecimal float literals rounded to the nearest
  binary64 value.
- `cli`: command-line parsing, hex and base64 input decoding.
- `flatten`: key lookup for flattened structs.
- `derive_rules`, `derive_analysis`: the decisions of the `Cbor` derive on a
  plain description of an item: serde attributes, integer literals, the key
  table, the container marker and every refused use with its message.
- `derive_bounds`: the bounds of the derive's impls: which type parameters
  must be `Serialize`, `Deserialize` or `Default`, the user's `bound`
  predicates, and the lifetimes the deserializer's lifetime must outlive.
- `json`, `json_text`: the closest JSON value to a CBOR item, refusing
  maps whose keys collide once written as JSON text, and the compact JSON
  text of a value (the texts of floats are handed in).
- `bench`: the deterministic benchmark fixtures (integers, log records, a
  byte string).

`app/` holds the `cbor` command-line front end (process, file and terminal
handling). `tests/` exercises the library.
