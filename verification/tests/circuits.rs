//! The transfer and withdraw relations.

use attesta::circuit::{Circuit, SynthesisError};
use attesta::field::Fr;
use attesta::merkle::{MerklePath, MerkleTree};
use attesta::note::{derive_nullifier, derive_pk, Note};
use attesta::transfer::{NewNote, SpentNote, TransferCircuit};
use attesta::withdraw::WithdrawCircuit;

const DEPTH: usize = 8;

/// Two real notes in (600 + 400), two notes out (750 + 250).
fn transfer_fixture() -> TransferCircuit {
    let sk1 = Fr::from(11u64);
    let sk2 = Fr::from(22u64);
    let recipient_pk = derive_pk(Fr::from(33u64));

    let n1 = Note {
        value: 600,
        owner_pk: derive_pk(sk1),
        blinding: Fr::from(101u64),
    };
    let n2 = Note {
        value: 400,
        owner_pk: derive_pk(sk2),
        blinding: Fr::from(102u64),
    };

    let mut tree = MerkleTree::new(DEPTH);
    let i1 = tree.insert(n1.commitment());
    let i2 = tree.insert(n2.commitment());

    let out1 = NewNote {
        value: 750,
        owner_pk: recipient_pk,
        blinding: Fr::from(201u64),
    };
    let out2 = NewNote {
        value: 250,
        owner_pk: derive_pk(sk1), // change back to self
        blinding: Fr::from(202u64),
    };

    TransferCircuit {
        depth: DEPTH,
        root: Some(tree.root()),
        nullifiers: vec![
            Some(derive_nullifier(sk1, i1)),
            Some(derive_nullifier(sk2, i2)),
        ],
        new_commitments: vec![Some(out1.commitment()), Some(out2.commitment())],
        spent: vec![
            Some(SpentNote {
                value: n1.value,
                sk: sk1,
                blinding: n1.blinding,
                path: tree.path(i1),
            }),
            Some(SpentNote {
                value: n2.value,
                sk: sk2,
                blinding: n2.blinding,
                path: tree.path(i2),
            }),
        ],
        created: vec![Some(out1), Some(out2)],
    }
}

fn transfer_is_satisfied(circuit: &TransferCircuit) -> bool {
    circuit.generate_constraints().is_satisfied().unwrap()
}

#[test]
fn honest_transfer_satisfies() {
    assert!(transfer_is_satisfied(&transfer_fixture()));
}

#[test]
fn inflation_is_rejected() {
    let mut circuit = transfer_fixture();
    // Claim more output value than input.
    if let Some(out) = circuit.created[0].as_mut() {
        out.value = 751;
        circuit.new_commitments[0] = Some(out.commitment());
    }
    assert!(!transfer_is_satisfied(&circuit));
}

#[test]
fn transfer_wrong_nullifier_is_rejected() {
    let mut circuit = transfer_fixture();
    circuit.nullifiers[0] = Some(Fr::from(12345u64));
    assert!(!transfer_is_satisfied(&circuit));
}

#[test]
fn foreign_note_is_rejected() {
    let mut circuit = transfer_fixture();
    // Claim a note that is not in the tree: break the path.
    if let Some(s) = circuit.spent[0].as_mut() {
        s.path.siblings[0] = Fr::from(999u64);
    }
    assert!(!transfer_is_satisfied(&circuit));
}

#[test]
fn stolen_note_is_rejected() {
    let mut circuit = transfer_fixture();
    // Present note 1 with a key that does not own it.
    let thief_sk = Fr::from(666u64);
    let idx = circuit.spent[0].as_ref().unwrap().path.leaf_index;
    circuit.spent[0].as_mut().unwrap().sk = thief_sk;
    circuit.nullifiers[0] = Some(derive_nullifier(thief_sk, idx));
    assert!(!transfer_is_satisfied(&circuit));
}

#[test]
fn dummy_input_skips_membership_but_adds_no_value() {
    let sk = Fr::from(11u64);
    let dummy_sk = Fr::from(77u64);
    let note = Note {
        value: 500,
        owner_pk: derive_pk(sk),
        blinding: Fr::from(101u64),
    };
    let mut tree = MerkleTree::new(DEPTH);
    let idx = tree.insert(note.commitment());

    let out = NewNote {
        value: 500,
        owner_pk: derive_pk(Fr::from(33u64)),
        blinding: Fr::from(201u64),
    };
    // Dummy occupies slot 2: zero value, fabricated path.
    let dummy_path = tree.path(idx); // arbitrary siblings
    let mut circuit = TransferCircuit {
        depth: DEPTH,
        root: Some(tree.root()),
        nullifiers: vec![
            Some(derive_nullifier(sk, idx)),
            Some(derive_nullifier(dummy_sk, 0)),
        ],
        new_commitments: vec![Some(out.commitment()), Some(out.commitment())],
        spent: vec![
            Some(SpentNote {
                value: 500,
                sk,
                blinding: note.blinding,
                path: tree.path(idx),
            }),
            Some(SpentNote {
                value: 0,
                sk: dummy_sk,
                blinding: Fr::from(0u64),
                path: MerklePath {
                    siblings: dummy_path.siblings,
                    leaf_index: 0,
                },
            }),
        ],
        created: vec![
            Some(out.clone()),
            Some(NewNote {
                value: 0,
                owner_pk: out.owner_pk,
                blinding: out.blinding,
            }),
        ],
    };
    // Fix second output commitment for the zero-value note.
    circuit.new_commitments[1] = Some(circuit.created[1].as_ref().unwrap().commitment());
    assert!(transfer_is_satisfied(&circuit));

    // A dummy that claims value must be a member.
    circuit.spent[1].as_mut().unwrap().value = 1;
    let out2 = circuit.created[1].as_mut().unwrap();
    out2.value = 1;
    circuit.new_commitments[1] = Some(out2.commitment());
    assert!(!transfer_is_satisfied(&circuit));
}

#[test]
fn swapped_commitment_is_rejected() {
    let mut circuit = transfer_fixture();
    circuit.new_commitments.swap(0, 1);
    assert!(!transfer_is_satisfied(&circuit));
}

#[test]
fn wrong_root_is_rejected() {
    let mut circuit = transfer_fixture();
    circuit.root = Some(Fr::from(1u64));
    assert!(!transfer_is_satisfied(&circuit));
}

#[test]
fn values_do_not_wrap_the_field() {
    // u64::MAX in, and two outputs whose sum needs 65 bits: the totals differ.
    let mut circuit = transfer_fixture();
    for out in circuit.created.iter_mut() {
        out.as_mut().unwrap().value = u64::MAX;
    }
    for i in 0..2 {
        circuit.new_commitments[i] = Some(circuit.created[i].as_ref().unwrap().commitment());
    }
    assert!(!transfer_is_satisfied(&circuit));
}

#[test]
fn blank_circuits_may_be_of_any_depth() {
    for depth in [0, 64, 65, 255, 300] {
        let blank = WithdrawCircuit::blank(depth).generate_constraints();
        assert_eq!(blank.bits.len(), depth);
        assert_eq!(blank.witnesses.len(), depth + 2);
        let blank = TransferCircuit::blank(depth, 1, 1).generate_constraints();
        assert_eq!(blank.bits.len(), depth + 128);
    }
}

/// The bits of the order of the field less one, least significant first.
fn order_less_one() -> Vec<bool> {
    let limbs: [u64; 4] = [
        0xffffffff00000000,
        0x53bda402fffe5bfe,
        0x3339d80809a1d805,
        0x73eda753299d7d48,
    ];
    (0..256).map(|i| (limbs[i / 64] >> (i % 64)) & 1 == 1).collect()
}

#[test]
fn bits_spell_canonical_integers() {
    let satisfied = |bits: &[bool]| {
        let mut c = Circuit::new();
        let bits = bits.iter().map(|b| c.new_bit(Some(*b))).collect();
        c.from_bits(&bits);
        c.is_satisfied().unwrap()
    };
    let largest = order_less_one();
    assert!(satisfied(&largest));
    assert!(satisfied(&largest[..255]));
    // The order itself, and what is larger.
    let mut order = largest.clone();
    order[0] = true;
    assert!(!satisfied(&order));
    assert!(!satisfied(&order[..255]));
    let mut wide = vec![false; 300];
    wide[299] = true;
    assert!(!satisfied(&wide));
    assert!(!satisfied(&[true; 255]));
    assert!(satisfied(&[true; 254]));
    assert!(satisfied(&[]));
}

#[test]
fn blank_circuits_have_the_shape_and_no_values() {
    let blank = TransferCircuit::blank(DEPTH, 2, 2).generate_constraints();
    let full = transfer_fixture().generate_constraints();
    assert_eq!(blank.gates.len(), full.gates.len());
    assert_eq!(blank.inputs.len(), 5);
    assert_eq!(full.inputs.len(), 5);
    assert_eq!(blank.is_satisfied(), Err(SynthesisError::AssignmentMissing));

    let blank = WithdrawCircuit::blank(DEPTH).generate_constraints();
    let full = withdraw_fixture().generate_constraints();
    assert_eq!(blank.gates.len(), full.gates.len());
    assert_eq!(blank.inputs.len(), 4);
    assert_eq!(blank.is_satisfied(), Err(SynthesisError::AssignmentMissing));
}

#[test]
fn public_inputs_come_in_contract_order() {
    let circuit = transfer_fixture();
    let built = circuit.generate_constraints();
    let expected = vec![
        circuit.root,
        circuit.nullifiers[0],
        circuit.nullifiers[1],
        circuit.new_commitments[0],
        circuit.new_commitments[1],
    ];
    assert_eq!(built.inputs, expected);

    let circuit = withdraw_fixture();
    let built = circuit.generate_constraints();
    let expected = vec![
        circuit.root,
        circuit.nullifier,
        circuit.recipient_binding,
        circuit.amount,
    ];
    assert_eq!(built.inputs, expected);
}

// ── withdraw ────────────────────────────────────────────────────────────

fn withdraw_fixture() -> WithdrawCircuit {
    let sk = Fr::from(11u64);
    let note = Note {
        value: 900,
        owner_pk: derive_pk(sk),
        blinding: Fr::from(101u64),
    };
    let mut tree = MerkleTree::new(DEPTH);
    let idx = tree.insert(note.commitment());
    WithdrawCircuit {
        depth: DEPTH,
        root: Some(tree.root()),
        nullifier: Some(derive_nullifier(sk, idx)),
        recipient_binding: Some(Fr::from(4242u64)),
        amount: Some(Fr::from(note.value)),
        sk: Some(sk),
        blinding: Some(note.blinding),
        path: Some(tree.path(idx)),
    }
}

fn withdraw_is_satisfied(circuit: &WithdrawCircuit) -> bool {
    circuit.generate_constraints().is_satisfied().unwrap()
}

#[test]
fn honest_withdraw_satisfies() {
    assert!(withdraw_is_satisfied(&withdraw_fixture()));
}

#[test]
fn wrong_amount_is_rejected() {
    let mut c = withdraw_fixture();
    c.amount = Some(Fr::from(901u64));
    assert!(!withdraw_is_satisfied(&c));
}

#[test]
fn foreign_key_is_rejected() {
    let mut c = withdraw_fixture();
    let thief = Fr::from(666u64);
    c.sk = Some(thief);
    c.nullifier = Some(derive_nullifier(thief, 0));
    assert!(!withdraw_is_satisfied(&c));
}

#[test]
fn withdraw_wrong_nullifier_is_rejected() {
    let mut c = withdraw_fixture();
    c.nullifier = Some(Fr::from(12345u64));
    assert!(!withdraw_is_satisfied(&c));
}

#[test]
fn wrong_leaf_index_is_rejected() {
    // Publishing the nullifier of a different leaf than the path proves
    // membership for must fail: the bits are shared.
    let mut c = withdraw_fixture();
    let sk = Fr::from(11u64);
    c.nullifier = Some(derive_nullifier(sk, 3));
    assert!(!withdraw_is_satisfied(&c));
}

// ── circuits ────────────────────────────────────────────────────────────

#[test]
fn enforced_equations_decide() {
    let mut c = Circuit::new();
    let a = c.new_input(Some(Fr::from(6u64)));
    let b = c.new_witness(Some(Fr::from(7u64)));
    let product = c.product(a, b);
    let expected = c.constant(Fr::from(42u64));
    c.enforce_equal(product, expected);
    assert_eq!(c.is_satisfied(), Ok(true));
    assert_eq!(c.value(product), Ok(Fr::from(42u64)));

    let sum = c.sum(a, b);
    let differs = c.is_neq(sum, product);
    let zero = c.constant(Fr::zero());
    // 13 differs from 42, so the condition is set and the equation counts.
    c.conditional_enforce_equal(differs, sum, zero);
    assert_eq!(c.is_satisfied(), Ok(false));
}

#[test]
fn conditions_that_are_not_set_enforce_nothing() {
    let mut c = Circuit::new();
    let a = c.new_witness(Some(Fr::from(6u64)));
    let b = c.new_witness(Some(Fr::from(7u64)));
    let off = c.new_bit(Some(false));
    let on = c.new_bit(Some(true));
    c.conditional_enforce_equal(off, a, b);
    assert_eq!(c.is_satisfied(), Ok(true));
    let low = c.select(off, a, b);
    let high = c.select(on, a, b);
    assert_eq!(c.value(low), Ok(Fr::from(7u64)));
    assert_eq!(c.value(high), Ok(Fr::from(6u64)));
    // Bits are little-endian.
    let spelled = c.from_bits(&vec![off, on, on]);
    assert_eq!(c.value(spelled), Ok(Fr::from(6u64)));
    let squared = c.square(b);
    assert_eq!(c.value(squared), Ok(Fr::from(49u64)));
}
