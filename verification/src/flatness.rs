//! The edge lengths of nodes are multiples of the brick dimension.
use vstd::prelude::*;
use crate::tree::{lemma_node_size, node_size_ok};

verus! {

/// The edge length of a node is a multiple of the brick dimension, and so is a quarter of it.
pub proof fn lemma_size_multiple(size: int, dim: int)
    requires
        node_size_ok(size, dim),
        dim >= 1,
    ensures
        size % dim == 0,
        (size / 4) % dim == 0,
        size / 4 >= dim,
        size / dim >= 4,
    decreases size,
{
    lemma_node_size(size, dim);
    if size == 4 * dim {
        assert((4 * dim) % dim == 0 && (4 * dim) / dim == 4 && (4 * dim) / 4 == dim && dim % dim
            == 0) by (nonlinear_arith)
            requires
                dim >= 1,
        ;
    } else {
        lemma_size_multiple(size / 4, dim);
        let quarter = size / 4;
        let k = quarter / dim;
        assert(quarter == k * dim) by (nonlinear_arith)
            requires
                quarter % dim == 0,
                k == quarter / dim,
                dim >= 1,
        ;
        assert(size == (4 * k) * dim) by (nonlinear_arith)
            requires
                size == 4 * quarter,
                quarter == k * dim,
        ;
        vstd::arithmetic::div_mod::lemma_fundamental_div_mod_converse(size, dim, 4 * k, 0);
    }
}

} // verus!
