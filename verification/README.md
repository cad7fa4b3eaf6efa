# inference_sim

A GPU-free stand-in for an inference engine core, written in Rust and verified with Verus.

- `src/` is the verified library: the generation loop, the decisions of the KV data plane,
  the trace format and its replay, the deployment fingerprint, and the order of a recording
  run. Each function states what it returns in `ensures`; properties of several functions
  are public proof functions beside them.
- `app/` is ordinary Rust around it: the recording tap's command line, the async engine
  loop, the NIXL transfers, and JSON files.
- `tests/` runs the library with the real outside crates linked.

What the library takes on trust is marked `external_body`, `external_type_specification` or
`assume_specification`: SHA-256 (`sha2`), the seeded generator (`rand`), MessagePack values
(`rmpv`), JSON values (`serde_json`), and `String::push`.
