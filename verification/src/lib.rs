//! Weighted finite-state transducers and the algorithms over them.
//!
//! A transducer is a graph whose arcs read one label, write another and carry a
//! weight out of a semiring. The crate keeps them as [`vector_fst::VectorFst`]
//! and states what each algorithm does over the view of that type.
pub mod accumulator;
pub mod add_on;
pub mod all_paths;
pub mod ambiguity;
pub mod arc;
pub mod arc_filter;
pub mod arc_map;
pub mod arc_map_laws;
pub mod arcsort;
pub mod bit_set;
pub mod cc_visitors;
pub mod closure;
pub mod common_future;
pub mod components;
pub mod compose;
pub mod compose_filter;
pub mod compose_laws;
pub mod compose_lookahead;
pub mod compose_unique;
pub mod composed_weights;
pub mod concat;
pub mod connect;
pub mod decode_laws;
pub mod determinize;
pub mod determinize_laws;
pub mod dfs_visit;
pub mod difference;
pub mod difference_laws;
pub mod disambiguate;
pub mod disambiguate_laws;
pub mod disambiguate_weights;
pub mod encode;
pub mod encode_format;
pub mod encode_laws;
pub mod epsnormalize;
pub mod epsnormalize_laws;
pub mod epsnormalize_paths;
pub mod equal;
pub mod equivalent;
pub mod equivalent_laws;
pub mod error;
pub mod factor_laws;
pub mod factor_weight;
pub mod filter_state;
pub mod gallic_laws;
pub mod gallic_map;
pub mod graph;
pub mod hash_table;
pub mod headed;
pub mod inspect;
pub mod intersect;
pub mod interval_set;
pub mod invert;
pub mod isomorphic;
pub mod isomorphic_laws;
pub mod label_reachable;
pub mod list;
pub mod log_accumulators;
pub mod lookahead_filter;
pub mod lookahead_laws;
pub mod lookahead_matcher;
pub mod matcher;
pub mod minimize;
pub mod minimize_laws;
pub mod multi_eps;
pub mod partition;
pub mod path_sums;
pub mod paths;
pub mod project;
pub mod properties;
pub mod prune;
pub mod prune_bounds;
pub mod prune_copies;
pub mod prune_laws;
pub mod push;
pub mod push_laws;
pub mod push_sums;
pub mod randequivalent;
pub mod randequivalent_laws;
pub mod reweight;
pub mod rmepsilon;
pub mod rmepsilon_laws;
pub mod rmepsilon_sums;
pub mod rmfinalepsilon;
pub mod rmfinalepsilon_laws;
pub mod shortest_distance;
pub mod sort;
pub mod string_weight;
pub mod symbol_table;
pub mod tarjan;
pub mod unfold;
pub mod union_find;
pub mod vector_fst;
pub mod weight;
pub mod wire;
