# smalltools

A handful of small command-line tools whose logic is a Verus-verified
library.

- `src/calendar.rs`: proleptic Gregorian dates (through `chrono`) and their
  `YYYYMMDD` numbers.
- `src/square_day.rs`: integer square roots, the square and day iterators,
  and the days whose number is a perfect square.
- `src/sqrt_day.rs`: the table of day numbers of a range and the table of
  squares up to a bound.
- `src/content_compare.rs`: reading hash listings line by line and
  comparing two of them.
- `src/hosts.rs`: DNS-over-HTTPS providers, query URLs and address records.
- `src/dedup.rs`: marking repeated names of a two-column table and writing
  the report as CSV (through `csv`).
- `src/rename.rs`: cleaning up file-name prefixes and choosing the files to
  copy.
- `src/password.rs`: base64url passwords (through `data-encoding`).

`app/` holds the command-line front end (`smalltools <tool> ...`): file and
network I/O, JSON decoding, randomness and printing.
