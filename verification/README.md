# ai_gfx_dev

A DX12 compute sample split into a verified library and a thin program.

`src/` (verified with Verus):

- `graph_config` — compute graph configurations: collecting declared
  resources, validation, and the execution plan (node dependencies from
  read/write hazards, barriers from resource state changes, first and last
  resource states, all listed by resource name), with exact contracts over
  spec functions.
- `name_order` — the order of names and a verified ordering of positions by
  name.
- `plan_laws` — proved laws of plans and validation: nodes wait for the last
  writer of what they bind and, when writing, for the readers since; they wait
  only for earlier conflicting nodes; barriers follow the states of consecutive
  uses and replay from the recorded initial to the recorded final states;
  validation accepts exactly configurations without repeats.
- `device` — the WARP capability report text, NUL-terminated UTF-16 names
  (decoded as `String::from_utf16_lossy` does),
  and the row layout of texture read-back.
- `dxc_locator` — where the vendored DXC library is expected.
- `text` — decimal and boolean rendering.

`app/` holds the program: TOML parsing through serde (into copies of the
library types), file lookups, and the Windows-only DX12 device code.
