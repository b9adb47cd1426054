use vstd::prelude::*;

verus! {

/// The node that stands for a literal: `2 * var` for the variable itself,
/// `2 * var + 1` for its negation.
pub open spec fn literal_node(var: nat, negated: bool) -> nat {
    if negated {
        2 * var + 1
    } else {
        2 * var
    }
}

/// The node of the opposite literal: the same variable with the other polarity.
pub open spec fn negation(node: nat) -> nat {
    if node % 2 == 0 {
        node + 1
    } else {
        (node - 1) as nat
    }
}

/// Flipping the lowest bit of a node index yields the opposite literal.
pub proof fn lemma_flip_lowest_bit(node: usize)
    ensures
        (node ^ 1) as nat == negation(node as nat),
{
    assert(node % 2 == 0 ==> (node ^ 1) == node + 1) by (bit_vector);
    assert(node % 2 != 0 ==> (node ^ 1) == node - 1) by (bit_vector);
}

} // verus!
