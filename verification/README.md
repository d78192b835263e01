# greentic-cap-runtime

Provider-neutral data-plane contracts for resolved capabilities: the immutable,
integrity-protected `ExecutableBindingV1`, its deterministic CBOR framing, and a
fail-closed dispatcher that resolves a binding, checks scope, lifetime, cycles, input,
policy, deadline and concurrency, invokes the pinned provider operation, validates its
output and audits the outcome.

The library under `src/` is written in Verus and verified by it. Its calls into outside
crates and a few std functions sit behind small trusted wrappers whose contracts Verus
takes as given. The per-binding in-flight counts sit behind a lock, so `release` states
nothing and `acquire` only that a zero limit admits nothing.

- `binding` — identifiers, digests, validation, promotion from resolver output, and the
  encode/decode entry points.
- `encode`, `decode` — the CBOR framing of bindings and JSON schemas, and its strict reader.
  The reader takes only the layout the writer produces. It reads back every binding whose
  schemas stay within the nesting limit and whose numbers are integers from `i64::MIN` to
  `u64::MAX`, which it reads itself, or floats that `serde_cbor` reads back as the text
  it was given.
- `number` — decimal texts of integers and their CBOR items.
- `operations` — the sorted operation map.
- `gate` — per-binding concurrency accounting.
- `dispatcher` — the dispatch pipeline as a function of what the collaborators answer.
- `abi` — the guest-facing error mapping and request handling.
- `cbor`, `json`, `digest`, `text`, `order` — the pieces above rest on.

The wrappers call `serde_cbor`, `serde_json`, `sha2`, `jsonschema` and `String`. The
host collaborators of the dispatcher and the guest-facing service are traits; each of their
methods promises only that its answer is one it gives to the question asked, so the
dispatcher's contract ties every answer it acts on to the question it asked.

`app/` holds what Verus does not see: serde/schemars copies of the public types, the JSON
schema helpers, and the Wasmtime linker adapter.
