# healthpulse

A code health analyzer: it scans a tree of source files, estimates their
cyclomatic complexity, finds files and functions that are too long, warns
when test files are scarce, and prints a report as text, Markdown or JSON.

## Layout

- `src/` is the library, verified with Verus.
  - `text.rs`: lines as `str::lines` splits them, trimming, prefixes and
    substrings, UTF-8 byte lengths, decimal formatting.
  - `config.rs`: the limits and the ignore patterns.
  - `analyzer.rs`: per-file statistics, the issues a file raises, Go
    (brace) and Python (indentation) function ends, and the analysis of a
    whole set of files.
  - `output.rs`: the text and Markdown reports, the content of the JSON
    report, and path truncation.
- `app/main.rs` is the command-line program: argument parsing, reading the
  configuration file, walking the directory tree, reading files, the
  floating-point test-ratio check, JSON serialisation and the exit code.
- `tests/` runs the library on concrete inputs.

## Exit codes

- `0`: no critical issues
- `1`: the configuration file could not be read or parsed
- `2`: critical issues found (the analyzer itself never reports one)
