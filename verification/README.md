# algoooo

Imports the individual contests of algoleague.com into PostgreSQL, rates users
and problems against each other, and serves the results over HTTP.

- `src/` is the verified library: the letters that name the problems of a
  contest (`fetcher`), the submission counts that weigh every result while
  ratings are replayed (`ranking`), and the choice of the table header on the
  contest page (`web`).
- `app/` is the command-line program around it: the judge client, the
  database, the float rating formulas, the HTML pages and the web server.
- `tests/` runs the library on concrete values.
