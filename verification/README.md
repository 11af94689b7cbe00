# rust_crawler

A small web crawler with a query index over the pages it stores.

- `src/` is the verified library:
  - `index/` holds the query language (`lexem`), the bit signatures that
    index pages (`hash`), and the evaluation of a query against a page's
    signatures and words (`fprocessing`).
  - `crawl/` holds the crawler's decisions: which link comes next, whether a
    link may be fetched, where found links are queued, the words and term
    counts of a page, its file name and its line in the index file. The calls
    into URL parsing, regular expressions, robots.txt rules and stemming are
    in `crawl/web.rs`.
  - `table.rs` holds tables of values under string keys, `command.rs` the
    commands the program reads, and `text.rs` and `unicode.rs` operations on
    character sequences.
- `app/` is the program around it: standard input, HTTP fetches, files, and
  the floating-point term weights and ranking.
- `tests/` exercises the library on concrete values.
