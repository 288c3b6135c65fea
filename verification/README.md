# casacure

A verified core of a CASA table system, written in Rust and proved with Verus.

- `src/` is the library. It reads and writes the bytes of `table.dat`, of
  StandardStMan and IncrementalStMan data files, of array files and of lock-file
  sync records; it creates tables, reads their cells, buffers writes, decides
  what a flush rewrites, and grows files in place. Every function states in its
  contract what it returns; files named `*law.rs` and `*read.rs`, and functions
  named `law_*`, prove what holds across functions, such as that every value of
  a created table is read back.
- `app/` is ordinary Rust around the library: directories and files, memory
  maps, record locks, error texts and floating-point arithmetic.
- `tests/` runs the library on concrete values.

Floating-point numbers are held as their IEEE bit patterns. Some parts of a table
are supplied by the caller: the texts of numbers in record cells, the encoded
contents of cells that hold arrays of strings, which the library lays into the
string buckets, and the tiles of tiled columns.
