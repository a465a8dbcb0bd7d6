# launch_manifest

A library for ROS 2 launch-tree contracts and portable real-time scheduling,
written in Verus. The functions under `src/` are verified against their
`requires`/`ensures` contracts, apart from a few small trusted wrappers
around outside calls (yaml-rust2's loader and event parser, and a handful
of std functions), whose claims are stated in their doc comments.

## What it does

- **Manifests** (`yaml_load`, `manifest_read`, `node_decl`, `path_decl`,
  `path_fields`, `yaml_fields`, `timing`, `field_table`): a manifest's text is
  loaded with yaml-rust2 and read into a `ManifestDoc`: nodes with their
  endpoints and properties, topics with their QoS, rate, drop tolerance and
  external side, services, actions, paths with their trigger, fan-in and
  timing contract, and includes. Unknown and retired keys are refused with a
  message that names the key, where it stands and its replacement.
- **Source spans** (`span`): an index from dot-separated key paths
  (`topics.chatter.type`) to the byte range of each key in the YAML text,
  built by replaying the parser's events; `parse_manifest_str_with_spans`
  returns a manifest with its index.
- **Arguments and conditions** (`subst`, `cond`, `manifest`): `$(var ...)`
  substitution and `if:`/`unless:` filtering of a manifest scope.
- **Scheduling** (`platform`, `posix`, `resolve`, `realize`, `mappers`,
  `chain_rank`, `rank_order`, `validate`): tier definitions, selector
  binding, realization of POSIX policies and priorities, and priority
  assignment over ranked groups.
- **Chain-aware ordering** (`chain_order`): the ordering and grouping of
  chain members and of the paths outside every chain. The ranking that
  measures chains and budgets in floating-point milliseconds stands in
  `app/`.

## Layout

- `src/`: the verified library.
- `app/`: what Verus does not see: file I/O, the serde and TOML forms of the
  library's types, error-trait impls, and the chain-aware ranking's
  floating-point measurements.
- `tests/`: tests run against the compiled library.
