# wasm-migrate

Inserts checkpoint and restore procedures into a function of a WebAssembly
module or component, so that a running computation can move from one host to
another.

The function is divided into regions, one for each outermost block or portion of
code. Behind each region the variables that matter are stored in a memory of
their own, exported as `checkpoint_memory`, together with the number of the
region to start from, and the host is asked whether to migrate. When the function
starts, the host may restore that memory; the function then passes over the
regions that are done, restores their variables, and goes on where it stopped.
The host provides two functions, `host.should_migrate` and `host.restore_memory`.

Checkpoints come in two forms. Distributed ones store the variables that a region
writes, the others those that are live at its end.

```rust
use wasm_migrate::WasmMigrate;

let mut injector = WasmMigrate::new();
injector.func_index = 12;
let with_checkpoints = injector.try_compute(&wasm_bytes, false)?;
```

## Layout

- `src/` is the library, verified with Verus.
  - `migrate` is the entry point; `component`, `module` and `inject` read and
    encode components and modules, `record` holds what is recorded of them; `tree`,
    `regions`, `layout` and `plan` analyse a function; `codegen` produces its code.
  - `reader` and `encoder` hold the calls into `wasmparser` and `wasm_encoder`,
    whose contracts are trusted.
  - `machine` says what the inserted code does when it runs. `laws` and
    `execution` state what holds of it, `transfers` what it stores and loads;
    `partition` and `balance` state what holds of the regions.
  - `host` is what the host does, `benchmarks` the list of benchmarks.
- `app/` holds the command-line programs.
- `tests/` runs the library, and the modules that it produces.
