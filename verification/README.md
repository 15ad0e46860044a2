# timesfm3

The decision logic of a TimesFM 3.0 forecasting engine, written in Verus and
proved against its contracts, with an ordinary Rust runtime around it.

## Layout

- `src/` — the verified library.
  - `json`, `json_print`: the JSON dialect of checkpoint headers and
    `config.json`, and the compact layout headers are written in, with the law
    that parsing a printed document gives the value back.
  - `checkpoint`, `checkpoint_law`: safetensors headers and files, read and
    written; a written file reads back as the tensors it was written from.
  - `config`: the model configuration, its `config.json` overlay and checks.
  - `tensor`, `layout`, `mixing`, `pipeline`: row-major buffers, axis
    permutations and their inverses, the rolled future-covariate patches.
  - `decode`, `batching`: argument checks, padding, masks, patch plans and
    batch boundaries of a forecast.
  - `quantize`: which tensors are stored as F16, and the precision stamp.
  - `inspect`, `table`: reading data tables (delimiter, records, numbers,
    timestamps, missing fields, column roles, sampling frequency).
  - `text`: small helpers on characters and strings.
- `tests/` — tests of the library on concrete values.
- `app/` — the runtime: floating-point kernels and layers, the forecaster,
  file and memory-mapped I/O, command-line tools and desktop commands.

Calls into `csv` and `chrono` stand in `src/` behind small trusted wrappers,
each documented with what its contract assumes of the outside function.
