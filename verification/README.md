# aix

Tools for AIX Agent packages and the Rokid Glasses that run them, written in
Verus: every function of the library carries a contract that the verifier
proves.

## Layout

- `src/` — the verified library.
  - `paths`, `text`, `sizes`: source-path normalization, line splitting,
    trimming, and the byte-size texts (`4.00 KB`, `1.5 KiB`).
  - `collector`, `packing`: collecting source files for a package
    (normalized, sorted, duplicate-free, filtered by nested `.aixignore`
    rules through the `ignore` crate) and handing them to a packing engine.
  - `reader`, `tools`: reading `.aix` archives (`rawzip`, `miniz_oxide`) with
    size and CRC-32 checks, and the tools a package offers to agent runtimes.
  - `launch`, `definition`, `develop`, `installed`, `layout`: Agent IDs, launch
    routes, Widget families, Agent Definitions, the replies of the device's
    DEVELOP provider, ADB device selection, installed packages, and the
    placement of overlay Widgets in the device's Widget grid.
  - `report`: the lines `aix pack` prints about optimized files.
  - `laws`, `placement_laws`: properties that relate several functions.
- `tests/` — tests of the library on concrete values.
- `app/` — the `aix` command line: argument parsing, files, ADB and JSON.
