//! The same derivations in-circuit.

use super::{commitment_of, nullifier_of, pk_of, DOMAIN_NF, DOMAIN_PK};
use crate::circuit::{Assignment, Circuit, Var};
use crate::field::Fr;
use crate::poseidon::gadget::hash2;
use vstd::prelude::*;

verus! {

/// `pk = H(DOMAIN_PK, sk)`.
pub fn derive_pk(c: &mut Circuit, sk: Var) -> (pk: Var)
    requires
        old(c).wf(),
        sk.wire < old(c).size(),
    ensures
        old(c).computes(*final(c)),
        pk.wire < final(c).size(),
        forall|asg: Assignment| #[trigger]
            final(c).val(asg, pk.wire as int) == pk_of(old(c).val(asg, sk.wire as int)),
{
    let domain = c.constant(Fr::from_u64(DOMAIN_PK));
    hash2(c, domain, sk)
}

/// `cm = H(H(value, pk), blinding)`.
pub fn commitment(c: &mut Circuit, value: Var, owner_pk: Var, blinding: Var) -> (cm: Var)
    requires
        old(c).wf(),
        value.wire < old(c).size(),
        owner_pk.wire < old(c).size(),
        blinding.wire < old(c).size(),
    ensures
        old(c).computes(*final(c)),
        cm.wire < final(c).size(),
        forall|asg: Assignment| #[trigger]
            final(c).val(asg, cm.wire as int) == commitment_of(
                old(c).val(asg, value.wire as int),
                old(c).val(asg, owner_pk.wire as int),
                old(c).val(asg, blinding.wire as int),
            ),
{
    let inner = hash2(c, value, owner_pk);
    hash2(c, inner, blinding)
}

/// `nf = H(H(DOMAIN_NF, sk), leaf_index)`.
pub fn nullifier(c: &mut Circuit, sk: Var, leaf_index: Var) -> (nf: Var)
    requires
        old(c).wf(),
        sk.wire < old(c).size(),
        leaf_index.wire < old(c).size(),
    ensures
        old(c).computes(*final(c)),
        nf.wire < final(c).size(),
        forall|asg: Assignment| #[trigger]
            final(c).val(asg, nf.wire as int) == nullifier_of(
                old(c).val(asg, sk.wire as int),
                old(c).val(asg, leaf_index.wire as int),
            ),
{
    let domain = c.constant(Fr::from_u64(DOMAIN_NF));
    let inner = hash2(c, domain, sk);
    hash2(c, inner, leaf_index)
}

} // verus!
