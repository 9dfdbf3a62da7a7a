# quantaswap

A verified library for a concentrated-liquidity exchange on Radix and the components
around it, written in Verus.

`src/` is the library. Every function in it carries a contract that Verus proves:

- `decimal` — fixed-point decimals with 18 decimal places, modelled by their attos; checked
  arithmetic goes through scrypto's `Decimal`.
- `tick`, `tick_math` — price ticks, their alignment to a bin span, and the conversion
  between ticks and square-root prices.
- `tick_index` — a three-level bitmap index of the ticks that hold liquidity, with the
  current tick; next tick up and down, insertion and removal.
- `pool` — the pool: bins of liquidity, liquidity receipts with claims on bins, adding and
  removing liquidity, redemption values, bin listings and the steps of a swap.
- `token_validator` — which tokens may be listed: black and white lists, divisibility,
  recall, freeze, deposit and withdraw rules.
- `list`, `factory` — the registry of pools and of the pools of each token pair.
- `token_bridge` — one-for-one exchange of old tokens for new ones.
- `weighted_pool` — setup, pricing and swap fees of a weighted two-token pool.
- `address`, `bits` — ledger addresses and bit-level lemmas used by the index.

`tests/` runs the library on concrete values. `app/` holds the ledger glue: vaults, buckets,
receipt NFTs, resource facts, calls to other components and events.
