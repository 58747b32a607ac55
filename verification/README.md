# mosaic

The core of an entity-graph store, written in Verus. Every function in `src/`
carries a contract; Verus proves it of every body it reads, and the few calls
into outside crates and unspecified parts of std sit behind small trusted
wrappers whose doc comments say what is claimed of them.

- `sparse_set`, `freelist`: identifier sets and identifier allocation.
- `sparse_matrix`, `undirected_matrix`, `reachability`: adjacency matrices,
  depth-first path enumeration, and the proof that the directed search meets
  exactly the reachable nodes.
- `byte_utilities`, `mosaic_io`: big-endian codecs and the byte format a mosaic
  is saved in, with the proof that saved bytes load back.
- `mosaic_state`: a mosaic's registry, tiles, dependents and identifier sets
  as plain values; creating objects, saving, and loading saved bytes into
  them, with the proof that a saved mosaic loads back its tiles.
- `strings`: cutting a string into fixed-size parts and joining parts back,
  with the proof that an ASCII string comes back whole.
- `datatypes`, `component_registry`, `tile`, `text`: component names and types,
  the registry of types, and the kinds of tiles.
- `collage`, `query_iterator`, `either`, `traversal`, `traversal_funnel`,
  `logging`: query builders and small shared types.

`app/` holds the process-level setup (logging). `tests/` exercises the library
on concrete values.
