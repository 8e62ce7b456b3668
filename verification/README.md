# XLM price prediction market

A market in which users stake on the price of XLM, round by round, and which is
settled from an oracle's reports. The library is written in Verus: what each
operation does is stated in its contract and proved, together with the laws of
the market as a whole.

- `src/` is the library. `model.rs` and `rules.rs` say what the operations do,
  `contract.rs`, `settlement.rs`, `precision.rs`, `oracle.rs` and `archive.rs`
  do it, and `payments.rs`, `conservation.rs`, `shares.rs`, `order.rs`,
  `frame.rs` and `laws.rs` prove what follows: that no settlement pays more
  than was staked, that refunds are exact, that a nonce settles once, that a
  recorded outcome stands, and more. `host.rs` holds the calls into
  `soroban_sdk` that the proofs rest on.
- `tests/` runs the library.
- `app/` is the contract on the host: it reads the storage, asks for
  authorization, calls the library, and writes back what has changed.
