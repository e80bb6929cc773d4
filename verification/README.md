# mdc

A disk cleaner for leftover caches, logs and development artefacts on
macOS, as a verified library (`src/`) and a command-line program (`app/`).

- `src/rules.rs`: categories, safety levels, rules and rule sets.
- `src/builtins.rs`: the built-in rule table below a home directory.
- `src/selection.rs`: choosing rules by a comma-separated category filter.
- `src/scanner.rs`: which paths a rule finds, and a scan as a state machine
  that asks its driver about the file system and records what it finds.
- `src/order.rs`: stable descending order by size.
- `src/analyzer.rs`: totals, per-category and per-safety summaries, the
  largest items, and human-readable sizes.
- `src/cleaner.rs`: what a clean moves to the trash and what it reports.
- `src/report.rs`: the tables and lines that the program prints, the
  tables drawn with `comfy_table`.
- `src/text.rs`: splitting, trimming, searching and decimal text.

`app/` parses the command line, walks the file system with `walkdir`,
moves files to the trash with `trash`, and prints the report's lines or
JSON.

What the library states, besides the contract of each function:

- The built-in rules cover every category but Docker, which has no
  path-based rule (`builtins::lemma_no_docker_rule`).
- Patterns are names in which `*` stands for any run of characters
  (`text::wildcard_match`); a pattern without `*` matches only the name itself.
  A path that plainly ends in a name is matched by that name
  (`scanner::ends_in_name`), and ASCII category names and filters are
  lower-cased letter by letter (`text::lower_text`).
- A scan passes over an entry that cannot be read (an event of its own) and
  goes on with the rest of the walk.
- The categories partition a rule set (`rules::law_categories_partition_rules`).
- Scanning two lists of rules one after the other is scanning the first,
  then the second: step by step (`scanner::law_joined_scan_*`,
  `law_scan_after_steps`) and over whole scans
  (`scanner::law_scan_of_joined_rules`).
- The size of a directory is the sum of the sizes of the files below it
  (`Scanner::calculate_size`).
- Totals and summaries of an analysis do not depend on the order of the
  items, nor do the sizes of the largest items; the largest items for a
  limit are the first of those for any larger limit (`analyzer::law_*`).
