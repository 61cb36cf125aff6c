# ars_dl

The verified core of a small command-line downloader (single files with
resume and range splitting, batch downloads from `[start-end:step]` URL
patterns, GitHub mirror fallback).

- `src/` is the library, with the proofs of its contracts:
  - `text.rs`: decimal text of integers and character-sequence helpers;
  - `binary64.rs`: exact integer emulation of rounding a ratio to an `f64`
    and printing it with a fixed number of decimals;
  - `utils.rs`: file names from URLs, save paths, byte and duration text;
  - `batch.rs`: the range expression of batch URLs, its expansion, folders,
    item file names and the run's tally;
  - `plan.rs`: download strategy, range splitting, resume plans, request
    headers, ETA text, temporary part names and the fallback to one stream;
  - `mirror.rs`: the mirror probing decisions for GitHub URLs.
- `app/` is the program around it: arguments, network and file I/O, the
  progress bars and their floating-point speed and percentage.
- `tests/` runs the library on concrete values.
