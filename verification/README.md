# spreadsheet

A terminal spreadsheet whose logic is verified with Verus: formulas
(`A1+B2`, `SUM(A1:B3)`, `AVG`/`AVERAGE`, `MIN`, `MAX`, `STDEV`/`STDDEV`,
`SLEEP`), two evaluation
engines, a modal (vim-like) command set, and saving and loading in CSV, TSV and
a format that keeps formulas.

## Layout

- `src/` — the verified library.
  - `text`, `columns`, `formula`, `stats`: characters and numbers, column
    names, the formula grammar, and the range aggregates (the standard
    deviation is computed exactly in integers and rounded half up).
  - `sheet`: the main engine. Each command line is parsed, the dependency
    graph of the whole sheet is rebuilt (references that would close a cycle
    are refused), and every cell is evaluated in dependency order.
    `sheet::session::process_line` carries out one line and states its whole
    effect as `spec_process_line`.
  - `incremental`: the engine that keeps its dependency graph between lines,
    checks formulas against their grammar before storing them, and
    re-evaluates only the cells connected to the one assigned.
  - `vim`: the modal editor's state, its `:` commands, search and replace, and
    the file formats.
- `app/` — the program: argument handling, the read–evaluate–print loops,
  sleeping, and file input and output.
- `tests/` — tests of the library on concrete values.

Sleeps that formulas ask for are not performed by the library: it reports
them, in order, and the program sleeps.

Among the laws proved in `src/` (public proof functions named `law_*`): column
names and indices are inverse, and names are ordered as their columns;
decimal text reads back as its number; the dependency graphs of both engines
stay acyclic, and a formula (other than `SLEEP`) reads only the cells that the
graph records for it; a line refused for a cycle leaves the named cell's formula as it
was; the view stays inside the sheet, every command that reads as a cell
reference is a jump, and a `:<cell>` jump shows its target;
a range function over a range free of error cells is the function of its
values taken row by row, and the average lies between the least and greatest
value; a backward search step
undoes a forward one; a sheet saved as CSV/TSV or in the formula-keeping
format reads back cell by cell.

CSV and TSV files hold values only: a field that is a number sets the cell's
value, `ERR` marks the cell in error, and any other field (a quoted formula
among them) leaves the cell as it was. Formulas are kept only by the
formula-keeping format.
