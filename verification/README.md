# stock_calc

A portfolio manager and a position-size calculator (two desktop programs)
built on a small Verus-verified library.

- `src/` — the verified library:
  - `format`: whole numbers with `'` thousand separators, the live
    reformatting of a number field while typing (`reformat`,
    `edit_number`), the cleaning of number text before parsing and the
    normalization of ticker symbols;
  - `instance`: the programs' names, the single-instance lock and
    activation decisions, UTF-16 encoding for the Windows API and the
    recognition of a program by its image path;
  - `model`: the calculator's saved inputs and its one-entry-per-symbol,
    newest-first history;
  - `icon`: choosing and decoding the largest image of the `.ico` file;
  - `labels`: short texts of the portfolio window;
  - `text`: conversions between `&str`/`String` and `Vec<char>`, white
    space and ASCII case helpers.
- `app/` — the programs: windows and widgets (eframe/egui), files and
  JSON, Windows API calls, and all floating-point arithmetic.
- `tests/` — tests of the library.
