# sicada

Algorithms on weighted finite-state transducers, written and verified in Verus.

A machine (`vector_fst`) has states, arcs that read one label, write another and take on a
weight, and weights that a path ends with. Weights are any type that implements
`weight::Weight`; the contracts are stated over the operations it names, and laws that need
more of a semiring say what they need.

- `dfs_visit`, `tarjan`, `cc_visitors`, `connect`, `components`: searching a machine, its
  components, and trimming it.
- `arc_map`, `arcsort`, `invert`, `project`, `encode`, `encode_format`: rewriting arcs, and
  encode tables as bytes.
- `closure`, `concat`: repetition and succession.
- `matcher`, `filter_state`, `compose_filter`, `compose`, `intersect`, `difference`: running
  one machine into another.
- `label_reachable`, `accumulator`, `log_accumulators`, `lookahead_matcher`,
  `lookahead_filter`, `multi_eps`, `compose_lookahead`: asking before a pair of states is
  built whether it leads anywhere.
- `determinize`, `disambiguate`, `minimize`, `epsnormalize`, `factor_weight`, `push`,
  `reweight`, `prune`: making machines smaller or simpler.
- `equal`, `equivalent`, `isomorphic`, `randequivalent`: comparing machines.
- `add_on`, `wire`, `symbol_table`: what travels with a machine through a file.

What an operation promises stands in the `ensures` of its function. What holds of several
together stands in the public proof functions whose names begin with `law_`. Those with
long proofs have files of their own: `compose_laws`, `compose_unique`, `lookahead_laws`,
`difference_laws`, `encode_laws`, `decode_laws`, `determinize_laws`, `disambiguate_laws`,
`disambiguate_weights`, `epsnormalize_laws`, `equivalent_laws`, `factor_laws`, `gallic_laws`,
`minimize_laws`, `push_laws` and `prune_laws`.

`app/` holds the floating-point arithmetic of log weights.
