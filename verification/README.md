# meshcore

The decisions of MeshAI — pooling the memory of a laptop and phones to run a language model
none of them could hold alone — written in Verus and proved against their contracts.

## Layout

- `src/` — the verified library.
  - `planner.rs`: which devices are eligible, where the model runs alone or how its layers are
    split, with a reason for every device; laws: the host, the layer layout, the single-device
    rule, a reason for every placement.
  - `layers.rs`: the placement units of a GGUF file and their sums; laws: the units hold every
    byte of the tensor table once, as the host's fixed units plus the stack of all blocks.
  - `gguf.rs`: reading a GGUF header from the bytes of a file's head; laws: a longer head reads
    the same, the whole file always suffices.
  - `calc.rs`: easy / hard / impossible (law: what each category means), the reasons and what
    would change the answer, and which measured runs a device's speed is read from.
  - `pairing.rs`: one-time pairing tokens; laws: single use, expiry.
  - `framing.rs`: length-prefixed control frames; laws: round trip, partial frames wait.
  - `control.rs`: limits and decisions of control connections, and what a `Hello` does to the
    pairing book; laws on the pre-auth pool and on silence.
  - `stream.rs`: reading streamed answers through the proxy; law: chunking does not matter.
  - `supervisor.rs`: the `llama-server` command line and the workers' addresses, the steps of
    starting a plan, and the run's status from `starting` to `ready`, `error` or `idle`; law: once
    waiting for the host stops, it stays stopped.
  - `state.rs`, `models.rs`, `cost.rs`, `text.rs`: credits for a live run, run checks, pairing QR
    codes, the catalog, provenance tags, text helpers.
- `tests/` — tests of the library, run with the real outside crates.
- `app/` — the `meshd` command line (`pair`, `plan`, `worker`): machine facts, files,
  processes, JSON output, and the floating-point cost model and speed figures.
