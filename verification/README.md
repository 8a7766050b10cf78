# ikpir

Incremental keyword private information retrieval over learning with errors, modulo `2^32`,
as a Verus library.

A server keeps its pairs in a segmented cuckoo map. Every key has one candidate bucket per
segment, so a lookup is one row query per segment, and an insertion, an update or a deletion
touches few rows. For each segment the server publishes a hint, the product of a public matrix
and the database; changed rows move the hint by a sparse delta, and clients follow it.

| Module | Contents |
|---|---|
| `arith`, `bits`, `geometry`, `text` | residues and dot products, bit strings, store geometry, messages |
| `matrix`, `params`, `pir_params` | dense matrices, parameter selection, plaintext widths and row folds |
| `hash`, `fingerprint`, `lwe` | candidate buckets and seeds, fingerprint chunks, value packing and rounding |
| `cuckoo_store` | the map; `model` says what its operations do, `row` how buckets become rows |
| `backend` | backend traits, blocked kernels, key stream, sparse patches, and the ternary-error backend in `frodo` |
| `serialization`, `wire` | byte encodings, and the bit-packed encoding of hint deltas |
| `server` | setup, responses, row updates, folding of slot writes, and what clients can retrieve |

The statements that tie functions together are the public proof functions whose names start
with `law_`; `server::retrieval::law_keyword_is_recovered` and
`server::update::law_hint_stays_in_step` are good places to start.

What Verus does not check: `backend::prg` reads the ChaCha20 key stream of `rand_chacha` and
random words of `rand`, and `backend::frodo::backend` draws random seeds of `rand`. `app/` holds
what stays outside of the library: threads, the environment, floating-point bounds and Gaussian
sampling, and `Display` for the errors.
