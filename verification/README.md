# property_token

A fractional property-ownership token whose logic is verified with Verus.

The library (`src/`) holds the token's state and decides every operation:

- `meta` — property metadata and its validation (property type, legal name,
  share count).
- `fixed_point` — the scaled per-share arithmetic of dividends (`SCALE = 10^7`).
- `distribution` — the distribution journal: one immutable checkpoint per
  dividend deposit, and what a holder is owed from a range of it, by type
  (rent, capital, other).
- `ledger` — holder accounts and the sums over them.
- `allowance` — allowances granted by holders to spenders.
- `token` — the token: issuance, transfers (direct, by allowance, forced),
  buybacks, dividend deposits and claims, dust collection, configuration,
  storage as plain parts, and the invariant-based laws (the pool always
  covers every claim plus the dust reserve; the holder count is exact; the
  supply never exceeds the share count).
- `laws` — properties relating several operations (a second claim pays
  nothing, movements keep accrued dividends with their holder, a deposit is
  split exactly into allocation and dust, rounding never exceeds the pro-rata
  part).
- `validate` — executable checks of the invariant, used when a token is
  restored from stored parts.
- `sums` — sums of integer sequences.

The token does not call the KYC registry or the compliance engine, nor does
it authenticate callers: each operation takes their answers (`KycStatus`,
`compliance_ok`) and the acting address as arguments.

`app/` is the Soroban contract around the library: it authenticates callers,
maps chain addresses to the library's numeric ids, asks the KYC registry and
the compliance engine, and loads and stores the token's state.
