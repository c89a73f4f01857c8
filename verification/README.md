# entropy_production

Non-equilibrium thermodynamics: entropy production, fluxes, steady states,
chemical affinities and thermodynamic networks.

- `src/` is the verified library (Verus). It holds the discrete structure of
  the models: the topology of a thermodynamic network (generated `N<i>` /
  `E<i>` identifiers, adjacency lists, edges at a node, linear chains and
  stars), the species shared between coupled reactions, joint frequency
  tables of paired observations, and the free and constrained forces of a
  linear system. Contracts are stated over sequences, sets and maps of
  identifiers, and the laws of these structures (symmetry of adjacency,
  identifiers that never collide, tables that account for every observation)
  are proved as proof functions next to them.
- Where the original keys a `HashMap` by strings (adjacency lists, shared
  species, the node map), the library holds the same data as a `Vec` of
  distinct keys instead: `grouping::Grouping` (keys with their lists, viewed
  as a `Map` from key to list) and `network::Topology::node_ids`. Verus
  proves nothing about the contents of a `String`-keyed `HashMap`, so the
  distinctness of keys is stated as the structure's invariant and every
  contract speaks of the map view. `app/` converts to and from `HashMap`.
- `app/` is ordinary Rust around it: the floating-point models (entropies,
  Onsager matrices, entropy production rates, reaction kinetics, steady-state
  search, dissipation routing) with their serde derives, calling the library
  for the structure they are built on.
- `tests/` exercise the library on concrete values.
