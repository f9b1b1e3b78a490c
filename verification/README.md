# nft_staking

Reward logic of an NFT staking program, verified with Verus.

- `src/` is the verified library: the staking configuration (`state`), the
  `initialize` instruction, the `claim` reward computation over an asset's
  attribute list, read from the asset account's attribute plugin (`claim`,
  `attributes`, with the account's byte layout in `asset_layout`), the decimal text of time stamps (`decimal`), and
  proved properties of claims across inputs and calls (`claim_laws`).
- `app/` is the on-chain program around it: account validation, reading the
  clock, and minting the reward.
- `tests/` runs the library on concrete values.
