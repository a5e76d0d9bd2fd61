# electrscash

The core of an Electrum server for Bitcoin Cash, written in Rust and verified with Verus: how
blocks and transactions become index rows, how the rows are read again, and how questions of
wallets are answered from them.

- `src/` is the verified library.
  - `hashes`, `text`, `json`, `chain`: hashes, numbers and JSON as text, and the consensus types.
  - `db`, `store`, `table`: the rows of the index, the store that holds them, and lookup tables.
  - `index`, `util`: the rows of blocks, the chain of headers, and bringing it up to date.
    `index::laws` states what holds once the rows are stored.
  - `mempool`, `cache`, `rndcache`: transactions that wait for a block, and what is kept of what
    has been fetched.
  - `query`: status, balance, history and unspent outputs of a script; Merkle proofs.
  - `daemon`: requests to the daemon, the HTTP messages that carry them, and what its replies mean.
- `tests/` runs the library on concrete values.
- `app/` is what surrounds the library: connections, files, clocks, locks and metrics.

The contracts of functions that call other crates are believed, not proved. Each of these
functions is marked `#[verifier::external_body]`, and its comment says what it claims.
