# pq

A small query language for Parquet, NDJSON and CSV files, in the style of jq:

```
group_by .country | sum .revenue | top 5 by sum_revenue
```

compiles to the DuckDB query

```
SELECT country, sum(revenue) AS sum_revenue FROM read_parquet('sales.parquet')
GROUP BY country ORDER BY sum_revenue DESC LIMIT 5
```

The library under `src/` is written in Verus: its functions state what they return, and
Verus proves it. Public proof functions state what holds of several of them together.

## The query language

- `compile` takes a query over a file to SQL, stage by stage.
- `stage` reads the stages, `filter` the filter expressions, `path` the column paths.
- `plan` is what a query asks for, and writes it as SQL. `unnest` lifts list explosions
  out of clauses that do not allow them.
- `source` chooses the table function that reads a file; `sql` and `text` and `number`
  hold what the others share.
- `lineage` finds the columns that a query speaks of, also while it is being typed.

## Results

- `value` and `calendar` show cells, `json` holds the JSON values that they become, and
  `output` writes results as CSV, JSON or raw lines.
- `explain` and `profile` read DuckDB's plans and profiles and give hints. `figures`
  writes large numbers in short.

## The command line and the browser

- `commands` and `cloud` hold the SQL and the rules of the command line, `glob` matches
  file names with patterns.
- `session` is the state of the browser and what keys and results do to it. `editor`,
  `completion`, `drill`, `history`, `filters`, `panel`, `grid`, `screen` and `shell` are
  its parts.

The program itself, with everything that touches files, the terminal or a database, is
under `app/`. It performs what the library decides.
