# seekslam

Building blocks of a mapping and text-detection stack, with the integer and
byte-level logic verified by Verus.

- `src/` is the verified library:
  - `octree_key`: voxel keys, child keys and child indices, index keys,
    key rays;
  - `data_node`: generic octree nodes with eight child slots;
  - `scan_graph`: scans as nodes, pose constraints as edges, their base64
    record format and the whole-graph binary format; every `f64` is carried
    as its bit pattern;
  - `seglink_grid` and `seglink_group`: the layer layout, node positions and
    neighbour tables of the SegLink detector, and the grouping of its nodes;
  - `model_context_protocol`: the protocol's data types that hold only text,
    integers and flags.
- `app/` holds what Verus does not take: floating-point geometry (nalgebra
  poses, point clouds, occupancy values, SegLink box arithmetic), stream and
  file I/O, the serde forms of the protocol types, raw-memory value I/O and
  the network proxy.
- `tests/` runs the library on concrete values.

## Behaviour worth knowing

- SegLink grouping is a union-find over the marked nodes: `find_root`
  points the queried node straight at its root, `join` hangs the root with
  the larger index under the other, and `join_node_groups` labels marked
  nodes so that two share a label exactly when positive links connect them
  through marked nodes, groups numbered from 1 in order of their first
  node.
- `OcTreeKey` indexing with `key[i] = v` is total: an index of 3 or more
  addresses the z coordinate instead of panicking.
- Scan records read back what was written (see the round-trip laws in
  `scan_graph`). The whole-graph binary format, however, writes node and
  edge records back to back with no length in front of them, and each
  record reader takes all the bytes that remain; so only a graph without
  nodes reads back from its own file. The format is kept as it is, byte
  for byte; a reader of a non-empty graph file gets at most its first node.
- Poses are kept as the bit patterns of their seven `f64` words; the
  rotation read from a record is not normalised in the library (the
  application's pose type normalises it when it turns the bits into a
  quaternion). Pose equality compares translations word by word and
  rotations as unit quaternions: equal words, or every word equal to the
  other's negation.
