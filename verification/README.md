# ls

A small `ls`: lists directory entries one per line (`-1`), in the long
format (`-l`) or in columns fitted to the terminal; hides names starting
with `.` unless `-a`, `-A` or `-f` is given; sorts by name, time (`-t`) or
size (`-S`), reversed with `-r`, or not at all (`-f`); shows sizes such as
`1.5K` with `-h`; lists operands themselves with `-d` and descends into
subdirectories with `-R`.

- `src/` is the library, verified with Verus: the flags (`command`), the
  course of a listing (`list`), the order of entries (`entry`), the layouts
  (`output`, `columns`), sizes for people to read (`size`), byte strings
  (`bytes`) and, in `system`, the trusted calls
  into nix, chrono, terminal_size and std.
- `app/` is the program: it parses the command line with clap, reads the
  file system and writes what the library produces.
- `tests/` runs the library on entries held in memory.
