# tsffs (verified core)

The source-coverage and UEFI module discovery logic of the TSFFS fuzzer, as a
Verus-verified library, with the I/O around it in a small ordinary crate.

- `src/` is the verified library:
  - `util::path_suffix_index`: local paths indexed by every suffix of their
    components, with best-effort and strict (unambiguous) longest-suffix lookups;
  - `source_cov`: locating source files named in PDB or DWARF debug info, by
    content checksum first and by path suffix otherwise;
  - `uefi`: parsing the UEFI tracker's `list-modules` result and resolving each
    module to a local debug-info file;
  - `dwarf`: assembling DWARF as read (every DIE and line row of every unit)
    into symbols with source lines and runtime address ranges, including the
    subprogram filter and name resolution across units;
  - `haps`: what the fuzzer does when the simulation stops, and whether an
    exception, breakpoint or magic instruction stops it;
  - `log`: what is logged for the fuzzer's messages and heartbeats;
  - `path_text`: decomposition and ordering of path strings.
- `app/` walks directories, reads files, reads ELF/DWARF with `object` and
  `gimli` into plain unit dumps (each unit's header offset and sizes, every line
  row, and every DIE up to the first error of gimli's tree walk, converted one
  for one), logs with `tracing`, and writes the JSON log records.
- `tests/` exercises the library on concrete inputs.
