//! What is known about a machine, as bits.
//!
//! Most properties come in pairs: one bit says that the property holds, the next
//! that it does not, and with both clear nothing is known.
use vstd::prelude::*;

verus! {

/// The number of states is known.
pub const K_EXPANDED: u64 = 0x1;

/// The machine can be changed.
pub const K_MUTABLE: u64 = 0x2;

/// The machine came out of a failed operation.
pub const K_ERROR: u64 = 0x4;

/// Every arc writes what it reads.
pub const K_ACCEPTOR: u64 = 0x10000;

/// Some arc does not.
pub const K_NOT_ACCEPTOR: u64 = 0x20000;

/// No two arcs of a state read the same label.
pub const K_I_DETERMINISTIC: u64 = 0x40000;

/// Two arcs of a state do.
pub const K_NON_I_DETERMINISTIC: u64 = 0x80000;

/// No two arcs of a state write the same label.
pub const K_O_DETERMINISTIC: u64 = 0x100000;

/// Two arcs of a state do.
pub const K_NON_O_DETERMINISTIC: u64 = 0x200000;

/// Some arc reads and writes nothing.
pub const K_EPSILONS: u64 = 0x400000;

/// No arc does.
pub const K_NO_EPSILONS: u64 = 0x800000;

/// Some arc reads nothing.
pub const K_I_EPSILONS: u64 = 0x1000000;

/// No arc does.
pub const K_NO_I_EPSILONS: u64 = 0x2000000;

/// Some arc writes nothing.
pub const K_O_EPSILONS: u64 = 0x4000000;

/// No arc does.
pub const K_NO_O_EPSILONS: u64 = 0x8000000;

/// The arcs of each state are in the order of what they read.
pub const K_I_LABEL_SORTED: u64 = 0x10000000;

/// The arcs of some state are not.
pub const K_NOT_I_LABEL_SORTED: u64 = 0x20000000;

/// The arcs of each state are in the order of what they write.
pub const K_O_LABEL_SORTED: u64 = 0x40000000;

/// The arcs of some state are not.
pub const K_NOT_O_LABEL_SORTED: u64 = 0x80000000;

/// Some arc or final state weighs something.
pub const K_WEIGHTED: u64 = 0x100000000;

/// No arc or final state does.
pub const K_UNWEIGHTED: u64 = 0x200000000;

/// Some state can be come back to.
pub const K_CYCLIC: u64 = 0x400000000;

/// No state can.
pub const K_ACYCLIC: u64 = 0x800000000;

/// The start can be come back to.
pub const K_INITIAL_CYCLIC: u64 = 0x1000000000;

/// The start cannot.
pub const K_INITIAL_ACYCLIC: u64 = 0x2000000000;

/// Every arc leads to a higher state.
pub const K_TOP_SORTED: u64 = 0x4000000000;

/// Some arc does not.
pub const K_NOT_TOP_SORTED: u64 = 0x8000000000;

/// Every state can be reached from the start.
pub const K_ACCESSIBLE: u64 = 0x10000000000;

/// Some state cannot.
pub const K_NOT_ACCESSIBLE: u64 = 0x20000000000;

/// A final state can be reached from every state.
pub const K_CO_ACCESSIBLE: u64 = 0x40000000000;

/// From some state none can.
pub const K_NOT_CO_ACCESSIBLE: u64 = 0x80000000000;

/// The machine is one path from state to next state.
pub const K_STRING: u64 = 0x100000000000;

/// The machine is not.
pub const K_NOT_STRING: u64 = 0x200000000000;

/// Some cycle weighs something.
pub const K_WEIGHTED_CYCLES: u64 = 0x400000000000;

/// No cycle does.
pub const K_UNWEIGHTED_CYCLES: u64 = 0x800000000000;

/// The bits that are either there or not.
pub const K_BINARY_PROPERTIES: u64 = 0x7;

/// The pairs of bits that say yes, no or, both clear, unknown.
pub const K_TRINARY_PROPERTIES: u64 = 0xffffffff0000;

/// Every bit.
pub const K_FST_PROPERTIES: u64 = 0xffffffff0007;

/// What holds of a machine with no states.
pub const K_NULL_PROPERTIES: u64 = 0x956a5a950000;

/// What the order of a state's arcs has no bearing on.
pub const K_ARC_SORT_PROPERTIES: u64 = 0xffff0fff0007;

/// What does not depend on the labels read.
pub const K_I_LABEL_INVARIANT_PROPERTIES: u64 = 0xffffcc300007;

/// What does not depend on the labels written.
pub const K_O_LABEL_INVARIANT_PROPERTIES: u64 = 0xffff330c0007;

/// What does not depend on the weights.
pub const K_WEIGHT_INVARIANT_PROPERTIES: u64 = 0x3ffcffff0007;

/// What survives one more final state with arcs leading to it.
pub const K_ADD_SUPER_FINAL_PROPERTIES: u64 = 0xeebfa56b0007;

/// What survives taking such a state away.
pub const K_RM_SUPER_FINAL_PROPERTIES: u64 = 0xdd7f5a970007;

/// What a copy has in common with what it was copied from.
pub const K_COPY_PROPERTIES: u64 = 0xffffffff0004;

/// What survives replacing any arc by any other.
pub const K_SET_ARC_PROPERTIES: u64 = 0x7;

/// What does not depend on labels.
pub const K_PROJECT_PROPERTIES: u64 = 0xffff00000003;

/// What does not depend on which side a label is on.
pub const K_INVERT_PROPERTIES: u64 = 0xffff00c30007;

/// What speaks of the labels read alone.
pub const K_I_SIDE_PROPERTIES: u64 = 0x330c0000;

/// What speaks of the labels written alone.
pub const K_O_SIDE_PROPERTIES: u64 = 0xcc300000;

/// What repeating keeps.
pub const K_CLOSURE_PROPERTIES: u64 = 0x6f83a02b0007;

/// What a chain of two has if both have it.
pub const K_CONCAT_BOTH_PROPERTIES: u64 = 0x800a00010000;

/// What a chain of two has if the first has it.
pub const K_CONCAT_FIRST_PROPERTIES: u64 = 0x6ab5a56a0003;

/// What a chain of two has if the second has it and the first can be crossed.
pub const K_CONCAT_SECOND_PROPERTIES: u64 = 0x4f05a56a0000;

/// What a chain of two has if either has it.
pub const K_CONCAT_EITHER_PROPERTIES: u64 = 0x208000000000;

/// What is known of a machine after one side was copied onto both.
pub open spec fn spec_project_properties(props: u64, project_input: bool) -> u64 {
    let p0: u64 = K_ACCEPTOR | (K_PROJECT_PROPERTIES & props);
    let p1 = if project_input {
        p0 | (K_I_SIDE_PROPERTIES & props)
    } else {
        p0
    };
    let p2 = if project_input && props & K_I_DETERMINISTIC != 0 {
        p1 | K_O_DETERMINISTIC
    } else {
        p1
    };
    let p3 = if project_input && props & K_NON_I_DETERMINISTIC != 0 {
        p2 | K_NON_O_DETERMINISTIC
    } else {
        p2
    };
    let p4 = if project_input && props & K_I_EPSILONS != 0 {
        p3 | (K_O_EPSILONS | K_EPSILONS)
    } else {
        p3
    };
    let p5 = if project_input && props & K_NO_I_EPSILONS != 0 {
        p4 | (K_NO_O_EPSILONS | K_NO_EPSILONS)
    } else {
        p4
    };
    let p6 = if project_input && props & K_I_LABEL_SORTED != 0 {
        p5 | K_O_LABEL_SORTED
    } else {
        p5
    };
    let p7 = if project_input && props & K_NOT_I_LABEL_SORTED != 0 {
        p6 | K_NOT_O_LABEL_SORTED
    } else {
        p6
    };
    let p8 = if !project_input {
        p7 | (K_O_SIDE_PROPERTIES & props)
    } else {
        p7
    };
    let p9 = if !project_input && props & K_O_DETERMINISTIC != 0 {
        p8 | K_I_DETERMINISTIC
    } else {
        p8
    };
    let p10 = if !project_input && props & K_NON_O_DETERMINISTIC != 0 {
        p9 | K_NON_I_DETERMINISTIC
    } else {
        p9
    };
    let p11 = if !project_input && props & K_O_EPSILONS != 0 {
        p10 | (K_I_EPSILONS | K_EPSILONS)
    } else {
        p10
    };
    let p12 = if !project_input && props & K_NO_O_EPSILONS != 0 {
        p11 | (K_NO_I_EPSILONS | K_NO_EPSILONS)
    } else {
        p11
    };
    let p13 = if !project_input && props & K_O_LABEL_SORTED != 0 {
        p12 | K_I_LABEL_SORTED
    } else {
        p12
    };
    let p14 = if !project_input && props & K_NOT_O_LABEL_SORTED != 0 {
        p13 | K_NOT_I_LABEL_SORTED
    } else {
        p13
    };
    p14
}

/// What is known of a machine after one side was copied onto both.
pub fn project_properties(props: u64, project_input: bool) -> (out: u64)
    ensures
        out == spec_project_properties(props, project_input),
{
    let mut out: u64 = K_ACCEPTOR | (K_PROJECT_PROPERTIES & props);
    if project_input {
        out = out | (K_I_SIDE_PROPERTIES & props);
    }
    if project_input && props & K_I_DETERMINISTIC != 0 {
        out = out | K_O_DETERMINISTIC;
    }
    if project_input && props & K_NON_I_DETERMINISTIC != 0 {
        out = out | K_NON_O_DETERMINISTIC;
    }
    if project_input && props & K_I_EPSILONS != 0 {
        out = out | (K_O_EPSILONS | K_EPSILONS);
    }
    if project_input && props & K_NO_I_EPSILONS != 0 {
        out = out | (K_NO_O_EPSILONS | K_NO_EPSILONS);
    }
    if project_input && props & K_I_LABEL_SORTED != 0 {
        out = out | K_O_LABEL_SORTED;
    }
    if project_input && props & K_NOT_I_LABEL_SORTED != 0 {
        out = out | K_NOT_O_LABEL_SORTED;
    }
    if !project_input {
        out = out | (K_O_SIDE_PROPERTIES & props);
    }
    if !project_input && props & K_O_DETERMINISTIC != 0 {
        out = out | K_I_DETERMINISTIC;
    }
    if !project_input && props & K_NON_O_DETERMINISTIC != 0 {
        out = out | K_NON_I_DETERMINISTIC;
    }
    if !project_input && props & K_O_EPSILONS != 0 {
        out = out | (K_I_EPSILONS | K_EPSILONS);
    }
    if !project_input && props & K_NO_O_EPSILONS != 0 {
        out = out | (K_NO_I_EPSILONS | K_NO_EPSILONS);
    }
    if !project_input && props & K_O_LABEL_SORTED != 0 {
        out = out | K_I_LABEL_SORTED;
    }
    if !project_input && props & K_NOT_O_LABEL_SORTED != 0 {
        out = out | K_NOT_I_LABEL_SORTED;
    }
    out
}

/// What is known of a machine after its sides were swapped.
pub open spec fn spec_invert_properties(props: u64) -> u64 {
    let p0: u64 = K_INVERT_PROPERTIES & props;
    let p1 = if props & K_I_DETERMINISTIC != 0 {
        p0 | K_O_DETERMINISTIC
    } else {
        p0
    };
    let p2 = if props & K_O_DETERMINISTIC != 0 {
        p1 | K_I_DETERMINISTIC
    } else {
        p1
    };
    let p3 = if props & K_NON_I_DETERMINISTIC != 0 {
        p2 | K_NON_O_DETERMINISTIC
    } else {
        p2
    };
    let p4 = if props & K_NON_O_DETERMINISTIC != 0 {
        p3 | K_NON_I_DETERMINISTIC
    } else {
        p3
    };
    let p5 = if props & K_I_EPSILONS != 0 {
        p4 | K_O_EPSILONS
    } else {
        p4
    };
    let p6 = if props & K_O_EPSILONS != 0 {
        p5 | K_I_EPSILONS
    } else {
        p5
    };
    let p7 = if props & K_NO_I_EPSILONS != 0 {
        p6 | K_NO_O_EPSILONS
    } else {
        p6
    };
    let p8 = if props & K_NO_O_EPSILONS != 0 {
        p7 | K_NO_I_EPSILONS
    } else {
        p7
    };
    let p9 = if props & K_I_LABEL_SORTED != 0 {
        p8 | K_O_LABEL_SORTED
    } else {
        p8
    };
    let p10 = if props & K_O_LABEL_SORTED != 0 {
        p9 | K_I_LABEL_SORTED
    } else {
        p9
    };
    let p11 = if props & K_NOT_I_LABEL_SORTED != 0 {
        p10 | K_NOT_O_LABEL_SORTED
    } else {
        p10
    };
    let p12 = if props & K_NOT_O_LABEL_SORTED != 0 {
        p11 | K_NOT_I_LABEL_SORTED
    } else {
        p11
    };
    p12
}

/// What is known of a machine after its sides were swapped.
pub fn invert_properties(props: u64) -> (out: u64)
    ensures
        out == spec_invert_properties(props),
{
    let mut out: u64 = K_INVERT_PROPERTIES & props;
    if props & K_I_DETERMINISTIC != 0 {
        out = out | K_O_DETERMINISTIC;
    }
    if props & K_O_DETERMINISTIC != 0 {
        out = out | K_I_DETERMINISTIC;
    }
    if props & K_NON_I_DETERMINISTIC != 0 {
        out = out | K_NON_O_DETERMINISTIC;
    }
    if props & K_NON_O_DETERMINISTIC != 0 {
        out = out | K_NON_I_DETERMINISTIC;
    }
    if props & K_I_EPSILONS != 0 {
        out = out | K_O_EPSILONS;
    }
    if props & K_O_EPSILONS != 0 {
        out = out | K_I_EPSILONS;
    }
    if props & K_NO_I_EPSILONS != 0 {
        out = out | K_NO_O_EPSILONS;
    }
    if props & K_NO_O_EPSILONS != 0 {
        out = out | K_NO_I_EPSILONS;
    }
    if props & K_I_LABEL_SORTED != 0 {
        out = out | K_O_LABEL_SORTED;
    }
    if props & K_O_LABEL_SORTED != 0 {
        out = out | K_I_LABEL_SORTED;
    }
    if props & K_NOT_I_LABEL_SORTED != 0 {
        out = out | K_NOT_O_LABEL_SORTED;
    }
    if props & K_NOT_O_LABEL_SORTED != 0 {
        out = out | K_NOT_I_LABEL_SORTED;
    }
    out
}

/// What is known of a machine after it was made to repeat.
pub open spec fn spec_closure_properties(props: u64) -> u64 {
    let p0: u64 = K_CLOSURE_PROPERTIES & props;
    let p1 = if props & K_UNWEIGHTED != 0 {
        p0 | K_UNWEIGHTED_CYCLES
    } else {
        p0
    };
    let p2 = if props & K_WEIGHTED != 0 && props & K_ACCESSIBLE != 0 && props & K_CO_ACCESSIBLE != 0 {
        p1 | K_WEIGHTED_CYCLES
    } else {
        p1
    };
    p2
}

/// What is known of a machine after it was made to repeat.
pub fn closure_properties(props: u64) -> (out: u64)
    ensures
        out == spec_closure_properties(props),
{
    let mut out: u64 = K_CLOSURE_PROPERTIES & props;
    if props & K_UNWEIGHTED != 0 {
        out = out | K_UNWEIGHTED_CYCLES;
    }
    if props & K_WEIGHTED != 0 && props & K_ACCESSIBLE != 0 && props & K_CO_ACCESSIBLE != 0 {
        out = out | K_WEIGHTED_CYCLES;
    }
    out
}

/// What is known of a chain of two machines.
pub open spec fn spec_concat_properties(props1: u64, props2: u64) -> u64 {
    let p0: u64 = (K_CONCAT_BOTH_PROPERTIES & props1 & props2) | (K_ERROR & (props1 | props2)) | (K_CONCAT_FIRST_PROPERTIES & props1) | (K_CONCAT_EITHER_PROPERTIES & props2);
    let p1 = if props1 & K_ACCESSIBLE != 0 && props1 & K_CO_ACCESSIBLE != 0 {
        p0 | (K_CONCAT_SECOND_PROPERTIES & props2)
    } else {
        p0
    };
    p1
}

/// What is known of a chain of two machines.
pub fn concat_properties(props1: u64, props2: u64) -> (out: u64)
    ensures
        out == spec_concat_properties(props1, props2),
{
    let mut out: u64 = (K_CONCAT_BOTH_PROPERTIES & props1 & props2) | (K_ERROR & (props1 | props2)) | (K_CONCAT_FIRST_PROPERTIES & props1) | (K_CONCAT_EITHER_PROPERTIES & props2);
    if props1 & K_ACCESSIBLE != 0 && props1 & K_CO_ACCESSIBLE != 0 {
        out = out | (K_CONCAT_SECOND_PROPERTIES & props2);
    }
    out
}

/// Those that say a thing is so.
pub const K_POS_TRINARY_PROPERTIES: u64 = 0x555555550000;

/// Those that say a thing is not so.
pub const K_NEG_TRINARY_PROPERTIES: u64 = 0xaaaaaaaa0000;

/// The properties that `props` settles, one way or the other.
pub open spec fn spec_known_properties(props: u64) -> u64 {
    K_BINARY_PROPERTIES | (props & K_TRINARY_PROPERTIES) | ((props & K_POS_TRINARY_PROPERTIES)
        << 1) | ((props & K_NEG_TRINARY_PROPERTIES) >> 1)
}

/// The properties that `props` settles, one way or the other.
pub fn known_properties(props: u64) -> (known: u64)
    ensures
        known == spec_known_properties(props),
{
    K_BINARY_PROPERTIES | (props & K_TRINARY_PROPERTIES) | ((props & K_POS_TRINARY_PROPERTIES)
        << 1) | ((props & K_NEG_TRINARY_PROPERTIES) >> 1)
}

/// Whether two sets of properties agree on all that both settle.
pub open spec fn spec_compat_properties(props1: u64, props2: u64) -> bool {
    let known = spec_known_properties(props1) & spec_known_properties(props2);
    (props1 & known) ^ (props2 & known) == 0
}

/// Whether two sets of properties agree on all that both settle.
pub fn compat_properties(props1: u64, props2: u64) -> (compat: bool)
    ensures
        compat == spec_compat_properties(props1, props2),
{
    let known: u64 = known_properties(props1) & known_properties(props2);
    (props1 & known) ^ (props2 & known) == 0
}

/// What a composition of acceptors keeps of what both have.
pub const K_COMPOSE_ACCEPTOR_PROPERTIES: u64 = K_NO_EPSILONS | K_NO_I_EPSILONS | K_NO_O_EPSILONS
    | K_ACYCLIC | K_INITIAL_ACYCLIC;

/// What a composition keeps of what both have.
pub const K_COMPOSE_PROPERTIES: u64 = K_ACCEPTOR | K_NO_I_EPSILONS | K_ACYCLIC
    | K_INITIAL_ACYCLIC;

/// What is known of a composition.
pub open spec fn spec_compose_properties(props1: u64, props2: u64) -> u64 {
    let error = K_ERROR & (props1 | props2);
    if props1 & K_ACCEPTOR != 0 && props2 & K_ACCEPTOR != 0 {
        let kept = error | K_ACCEPTOR | K_ACCESSIBLE | (K_COMPOSE_ACCEPTOR_PROPERTIES & props1
            & props2);
        if K_NO_I_EPSILONS & props1 & props2 != 0 {
            kept | ((K_I_DETERMINISTIC | K_O_DETERMINISTIC) & props1 & props2)
        } else {
            kept
        }
    } else {
        let kept = error | K_ACCESSIBLE | (K_COMPOSE_PROPERTIES & props1 & props2);
        if K_NO_I_EPSILONS & props1 & props2 != 0 {
            kept | (K_I_DETERMINISTIC & props1 & props2)
        } else {
            kept
        }
    }
}

/// What is known of a composition.
pub fn compose_properties(props1: u64, props2: u64) -> (out: u64)
    ensures
        out == spec_compose_properties(props1, props2),
{
    let error: u64 = K_ERROR & (props1 | props2);
    if props1 & K_ACCEPTOR != 0 && props2 & K_ACCEPTOR != 0 {
        let kept: u64 = error | K_ACCEPTOR | K_ACCESSIBLE | (K_COMPOSE_ACCEPTOR_PROPERTIES & props1
            & props2);
        if K_NO_I_EPSILONS & props1 & props2 != 0 {
            kept | ((K_I_DETERMINISTIC | K_O_DETERMINISTIC) & props1 & props2)
        } else {
            kept
        }
    } else {
        let kept: u64 = error | K_ACCESSIBLE | (K_COMPOSE_PROPERTIES & props1 & props2);
        if K_NO_I_EPSILONS & props1 & props2 != 0 {
            kept | (K_I_DETERMINISTIC & props1 & props2)
        } else {
            kept
        }
    }
}

} // verus!
