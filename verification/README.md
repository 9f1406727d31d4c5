# ootleswap

A constant-product (Uniswap V2 style) AMM for Tari Ootle, its pool registry
and the $SOON faucet token, with the decisions of every operation verified by
Verus.

- `src/address.rs` — resource, component and template keys; the text form of a
  resource address and the canonical order of a resource pair.
- `src/math.rs` — swap output with the 0.3% fee, proportional shares, integer
  square root, and the constant-product lemma.
- `src/pool.rs` — the pool state machine (`add_liquidity`, `remove_liquidity`,
  `swap`, `quote_swap`) and its laws.
- `src/factory.rs` — the registry of pools by resource pair.
- `src/soon_token.rs` — the faucet token.
- `app/` — the engine templates that hold the vaults and move the funds the
  library decides on, and the command-line demo against the live testnet.
