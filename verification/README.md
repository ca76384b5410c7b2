# sqlite_viewer

A terminal browser for the tables of a SQLite database file, built around a
library whose decoding of the file format is verified with Verus.

- `src/bytes.rs`: big-endian integers and varints, and a cursor over the
  file's first bytes.
- `src/header.rs`: the 100-byte database header and its checks.
- `src/page.rs`: b-tree page headers and leaf cells.
- `src/record.rs`: serial types and the decoding of records into values.
- `src/text.rs`: how values are shown, padded table cells, and the column
  names of a `CREATE TABLE` statement.
- `src/schema.rs`: the schema table on page 1, whose entries never share a
  table name (a type invariant).
- `src/app_state.rs`: the rows of table pages, the browser state, and the
  lines of the table menu and of the row view (column widths, padding, the
  selection marks).
- `src/cli.rs`: keyboard navigation between tables and rows.
- `app/main.rs`: the program: it reads the file, writes the lines the
  library composes to the terminal and passes key presses to the library.

Functions whose name starts with `try_` return `None` on the inputs where the
stricter function of the same name requires more than the input offers (a
record whose header runs past its end, an interior page, a cell pointer
outside its page, ...); the program stops with a panic there.
