# bucharest_solver

Searches the draws of a hashed board game for a king in check, with every
search proved correct against a mathematical model in Verus.

Each nonce, hashed with a starting hash by `libbucharesthashing::prover::hash`,
draws a piece and the square it lands on. A search places the draws in turn
and stops at the first one after which enough pieces check the last king; it
answers the least nonce among that king and its checking pieces, and the nonce
of the draw that ended it.

- `src/lib.rs`: the search that keeps the pieces in a list and the checking
  pieces in a `HashMap`, leaving out pieces below the last full row.
- `src/op_lib.rs`: the search that keeps every piece and lists the checking
  nonces as well.
- `src/tracker.rs`: the search that keeps the board in a `BTreeMap`, counts
  sliding pieces on every line and replays the draws before its start.
- `src/model.rs`, `src/tracker_model.rs`: what the searches compute.
- `src/consistency.rs`, `src/tracker_consistency.rs`: restarting a search at
  the nonce it answered gives the same answer.
- `src/external.rs`: the calls into `libbucharesthashing` and `u32::isqrt`.
- `app/`: the searches as Stylus contracts.
