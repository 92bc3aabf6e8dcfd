# slipmesh

Mesh networking for Talos nodes, with its logic verified by Verus.

Three daemons bring up a node's mesh without any cluster: one for AmneziaWG interfaces and the routes
of roaming peers, one that renders and supervises BIRD, and one that applies an nftables ruleset and
keeps it applied. A generator writes the config of every node from one file, `slipmesh.yaml`.

- `src/` is the library: every rule, parser, renderer and decision, each with a contract that Verus
  proves.
  - `common` addresses, CIDRs, keys, obfuscation settings, and what goes over netlink
  - `awg` the interface daemon: config, peers, garbage collection, route tracking, metrics
  - `router` the routing daemon: config, BIRD's config and replies, bypass resolution
  - `nftables` the ruleset daemon: placeholders, tables, the watch for lost tables
  - `patches` the topology, and the config that it makes of each node
  - `taloscfg` the generator: the file and its documents, edits that keep the rest as it was,
    secrets, patch files, migration
  - `text`, `offset`, `value`, `yaml`, `assoc` what the others are built from
- `app/` is the program around it: sockets, files, processes, the command line.
- `tests/` runs the library.

Laws that relate several functions are public proof functions whose doc comments start with "Law".
What the library takes on trust of other crates stands next to each call, in a function whose doc
comment says what is assumed of the crate.
