# onebrc

A verified library for the "one billion row" aggregation: a file of lines
`station;temperature`, with temperatures written with one fractional digit,
is reduced to the minimum, rounded mean and maximum temperature of every
station, printed as `{name=min/mean/max, ...}` sorted by station name.

- `src/` is the library, verified with Verus:
  - `value`, `station_name`: reading one line's temperature and name;
  - `summary`: the mathematical model (summaries, tables, merging) and its laws;
  - `stats`: the per-station statistics in an `FxHashMap`, the rounded mean,
    the decimal form of temperatures and the report;
  - `challenge`: splitting the file into chunks at line breaks, processing a
    chunk, merging the chunks' statistics, and the law that chunked processing
    gives the statistics of the whole file;
  - `v1`, `v2`: the line handling of two earlier readers (text lines; a line
    processor that stitches lines split across pieces of input);
  - `table`, `text`: the trusted wrappers around `rustc_hash`'s hash table and
    `std`'s UTF-8 conversions, and `memchr_first` in `v2`, the trusted wrapper
    around `memchr::memchr`; `search`, `order`: byte search and byte order.
- `app/` is the program: memory-mapping the file, the worker threads and
  printing.
- `tests/` runs the library on concrete inputs.
