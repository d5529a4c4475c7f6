# gazflow

The data handling and network logic of the GazFlow gas network tools, written in Verus:
the functions of the library carry contracts that Verus proves, and the few calls into
the `csv` and `quick-xml` crates stand behind small trusted wrappers whose contracts
say what those crates do.

## Layout

- `src/` — the verified library.
  - Reading inputs: `csvtable` (CSV through the `csv` crate), `xml` (events through
    `quick-xml`), `decimal` and `magnitude` (number literals as the standard parsers read
    them), `text`.
  - Imports: `demand_profiles`, `weather`, `catalog`, `stages`, `cdf`, `solution`,
    `import_error`, `importers`, `mapping` (nodes and pipes read through a field mapping),
    `properties` (feature properties as JSON values, and paths into them), `geojson`
    (feature collections), `csv_import` (node and pipe CSV texts), `field_path`, `labels`, `datasets`.
  - Network files: `net_file` (GasLib `.net`: nodes and connections, with defaults, units, flow
    bounds, valve states and compressor ratio sources).
  - Network logic: `graph`, `named`, `topology` (topology checks), `connectivity`,
    `routing` (combined decisions), `boundary`, `junctions`, `anchors` and `ranking`
    (pressure anchors of transport scenarios), `flow_roles` (compressor roles for the map
    flow estimate), `diff` (scenario differences), `editing` (step-by-step editing), `equipment`
    (regulating equipment settings and their merge),
    `settings` (run-time switches and counts).
- `tests/` — tests of the library.
- `app/` — a command-line front end: file reading, JSON and YAML parsing (`serde_json`,
  `serde_yaml`) into the library's values, and the floating-point models and
  compressor-map computations built on what the library reads.

Numbers that the library reads are kept as the decimal literals found (checked to be
what `f64::from_str` accepts, and finite where that matters); pressures and other float
attributes the network logic carries are a type parameter.
