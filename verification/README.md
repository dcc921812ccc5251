# quantabeta

Exact-arithmetic alpha-factor toolkit, verified with Verus.

- `bignat`, `bigint`, `rational`: arbitrary-precision naturals, integers and
  rationals in lowest terms, each operation proved against its mathematical meaning.
- `partition`: p(n) by Euler's pentagonal recurrence; bounded checks of
  Ramanujan's congruences.
- `hecke`: Hecke operators T_n on q-expansions, the Deligne bound check;
  `hecke_product`: T_m T_n = T_mn for coprime m and n.
- `qseries`: q-integers, q-Pochhammer symbols, a truncated Rogers-Ramanujan check.
- `features`: partition volatility and Hecke cross-correlation of return series.
- `entropy`: exact symbolic Shannon entropy.
- `backtest`: deterministic integer backtest with an audit hash.
- `worm`: append-only factor ledger whose SHA-256 seals form a chain.
- `digest`: SHA-256 in lowercase hex (through the `sha2` crate).

`app/` holds serde records of the results and the floating-point entropy
estimates, which stay outside the verified library.
