# kira

The verified core of a compiler's source handling and of its RISC-V test
runner, written in Verus.

- `src/source_file.rs`: `SourceFile` keeps a source file and the byte offsets
  at which its lines start; `lookup_pos` turns a byte offset into the 1-based
  line and column (in UTF-16 code units) that editors show.
- `src/position.rs`: the mathematical model of positions and the laws proved
  of it (start of file, character starts, offsets inside a character or past
  the end, line starts, stepping over a line feed, monotonicity, shape of
  the line index).
- `src/encoding.rs`: facts about UTF-8 encodings, over vstd's `encode_utf8`.
- `src/search.rs`: binary search over the line index.
- `src/output.rs`: the lines of a program's output without its timing lines.
- `src/runner.rs`, `src/suite.rs`: the test runner's decisions: command line,
  comparison of two runs, waiting for a command, which files are test cases
  and in what order, and the summary of a run.
- `app/main.rs`: the test runner itself (processes, files, printing).
- `tests/`: tests of the library.
