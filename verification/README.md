# frodo_pir

Private information retrieval from learning with errors: a client fetches an element of a server's
database, and the server does not learn which.

The library in `src/` is verified with Verus. Every function states in its contract what it returns,
over integers and sequences, and `src/laws.rs` states what holds of the scheme as a whole. Above all,
it says when a client gets back the element that it asked for: each entry of the row is decoded
correctly exactly where the noise in its column is at most half a rounding factor above zero, or less
than that below. For databases that are small enough this holds whatever the errors are.

What the library takes on trust is in `src/outside.rs`: the calls into base64, bincode, serde_json,
rand_core, rand_chacha and rayon.

* `src/` is the verified library.
* `tests/` holds its tests.
* `app/` is ordinary Rust around it: files and serialization.

The public matrix is the key stream of ChaCha with 12 rounds, taken as little-endian words, column
after column. Elements have a size in bits, and their bits are cut into entries with the lowest bit
of each byte first.
