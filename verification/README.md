# plato_afterlife

Dead agents persist as decaying knowledge tiles. When a vessel dies, its
lessons are harvested into ghost tiles with a low initial weight; each period
their weight decays, and a tile whose weight falls below the forget threshold
(0.05 unless configured) is forgotten.
A living agent's query that matches a tile boosts it, and brings a forgotten
tile back.

Every operation is verified with Verus against a contract.

## Fractions

Weights, thresholds, trust levels, relevance scores and rates are fractions of
one. The library keeps them as integer counts of billionths (`0.1` is
`100_000_000`, one is `fraction::ONE`): weights, thresholds and rates as `i64`,
since they may be negative, relevance and trust as `u64`. Decay, boosting,
relevance and thresholds are then exact integer rules. `app/` converts to and
from `f32` at the edge.

## Layout

- `src/fraction.rs`: the fixed-point constants and the decay, boost and clamp
  rules.
- `src/text.rs`: lower-casing, splitting into words and substring search (std's
  `str` methods, behind wrappers), and the relevance score.
- `src/tombstone.rs`, `src/ghost_tile.rs`: the records and their operations.
- `src/afterlife.rs`: the store of tiles and tombstones: harvest, tick, query,
  prune, lookups and statistics, each with its contract.
- `src/laws.rs`: properties that relate several operations.
- `src/history.rs`: runs of operations, and what holds over a whole run.
- `app/lib.rs`: `f32` conversions and overflow checks for unverified callers.
