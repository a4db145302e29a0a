# extutils

Small utilities for command-line programs — number and size parsing, line
splitting, quoting, base64, path names, process trees, panic-log rotation,
time stamps and tick arithmetic — written in Verus with their behaviour stated
as contracts and proved.

Layout:

- `src/` — the verified library. Each module states its model as spec
  functions (`from_str_radix_spec`, `lines_spec`, `tree_text`,
  `process_bfs`, `logs_to_remove_spec`, `tran_time_spec`, ...) and proves the
  executable functions against them. Public proof functions (`lemma_*`) state
  the laws that span several functions, such as reading back a time stamp or
  the order in which `mkdir_safe` creates directories.
- Trusted items in `src/` — calls into `base64`, `num-bigint`, `hmac`/`sha1`,
  `chrono`, `rand` and `std::path` — are `#[verifier::external_body]`
  wrappers whose doc comments say what their contracts claim.
- `app/` — the I/O around the library: files and directories, the process
  table (`sysinfo`), clocks (`libc`, `winapi`), HTTP (`reqwest`), temporary
  files (`tempfile`) and the panic hook (`backtrace`, `extargsparse_worker`).
- `tests/` — tests of the library on concrete values.
