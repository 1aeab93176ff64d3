# cpiolib

A library for `newc` and `crc` cpio archives, verified with Verus, and the `rscpio` tool built on it.

Headers with either magic number (`070701` for `newc`, `070702` for `crc`) are read with the
`newc` layout; the checksum field is read and written as it stands, not checked. Headers are
always written with the `newc` magic number.

- `src/` is the verified library. `hex` and `ext` hold the hexadecimal fields and the
  padding of the format; `cpio` the header and entry layout, how they read and write, and
  the round-trip laws; `iter` the walk through an archive; `order` the stable sort by
  name; `commands` and `create` what the `list`, `strip` and `create` commands compute;
  `termio` the position-counting stream; `traits` and `error` the reading and writing
  interface; `sys` the device numbers and file types taken from `rustix`.
- `app/` is the command line: argument parsing with `clap`, files and standard streams,
  `stat` calls, and printing.
- `tests/` runs the library on concrete archives.
