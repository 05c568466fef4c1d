# festival_pallets

The storage and the calls of four blockchain pallets, as a verified Rust
library:

- `movie`: accounts register movies, each stored under the Blake2 hash of the
  block's random seed, the movie id and the extrinsic index;
- `social_space`: accounts open spaces, follow each other's spaces, post, and
  comment;
- `festival`: festivals of registered movies on which accounts stake while the
  festival is active; when it ends, the stakes on the winning movies share
  everything staked;
- `anon_festival`: the same market with encrypted votes, polling stations
  whose members decrypt them, and a decryption period before the votes are
  counted.

Each call works on the storage of its pallet, and its contract states the
result, the new storage, the events deposited and, for the calls that move
money, the transfers and reserves asked of the runtime's currency with
their outcomes (recorded by `dispatch::Recorded`). What the runtime supplies
(the signer, the block number, the random seed, the balances) comes in as
arguments or through the `Currency` trait of `dispatch`. Calls run without a
storage layer around them: a call that fails after taking an id or writing
part of its storage leaves those writes in place, and its contract says
which.

Supporting modules: `table` (keyed storage as a list of entries with distinct
keys), `schedule` (the block indexes of festivals), `walk` (the order in which
the runtime's storage walks entries: by their hashed, SCALE-encoded keys), `market` (winners and
rewards), `hashing` (SCALE encoding and Blake2, from `parity-scale-codec` and
`sp-io`), `dispatch` (origins, errors, bounds), and `laws` (properties that
relate several calls).

All of `src/` is verified with Verus; the tests under `tests/` exercise the
library with a small in-memory ledger.
