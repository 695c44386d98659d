# ffxivfishing

Search and scheduling logic for a fishing tracker, verified with Verus.

- `src/query.rs` reads search queries (`zone:`, `patch:`, `uptime>`/`uptime<`,
  `within:` and plain name words) into clauses.
- `src/filter.rs` filters fish by a query and keeps a per-minute cache of each
  fish's next catch window.
- `src/schedule.rs` decides whether a catch window falls in a weekly schedule
  given in local time, and collects the windows of a fish that do.
- `src/filter_laws.rs` and `src/query_laws.rs` state and prove properties
  across calls: joined queries, dropped words, longer horizons, the cache
  over runs of lookups in one minute.
- `src/fish.rs` holds fish records and catch windows; `src/text.rs` and
  `src/arith.rs` hold the text and arithmetic helpers they rest on.
- `app/` reads numbers in queries as floating point and gives schedule
  entries serde support.

The next catch window of a fish is computed elsewhere and passed in as a
function `(fish, from, include_ongoing, filter_intuition, use_fish_eyes)`.
