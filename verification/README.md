# wca_stats

Statistics over the World Cube Association results export: world-record
timelines and half-lives, first records per country, Nth-solve and
multi-blind rankings, sub-X counts, relay and two-person challenges,
nations-cup standings, rank exports and the inputs of the skill estimator.

- `src/` is the verified library (Verus). Each statistic works on an
  `IndexedDb`, a table of results whose persons, competitions, countries and
  events are numbered, and states its output in its contract.
- `app/` is the program around it: it reads the TSV export, collects the
  sorted id tables, has the library turn result and ranking rows into
  indexed rows (`rows`), runs the statistics (in parallel where they are independent),
  does the floating-point parts of the skill estimator and writes JSON.
- `tests/` runs the library on small fixtures.
