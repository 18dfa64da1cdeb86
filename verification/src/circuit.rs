//! Arithmetic circuits over the scalar field.
//!
//! A [`Circuit`] is a list of gates. Each one defines a wire, which has the
//! number of its place in the list, from wires that stand before it; some
//! enforce an equation instead. Every gate is one operation on field or
//! boolean variables of a rank-1 constraint system, so a constraint system is
//! built from the list gate by gate, in order.
//!
//! What a circuit means is stated over an arbitrary [`Assignment`]: the values
//! that a prover, honest or not, puts in for the public inputs, the field
//! witnesses and the boolean witnesses. [`Circuit::val`] is the value of a
//! wire under an assignment and [`Circuit::sat`] says that every enforced
//! equation holds.

use crate::field::{fr_add, fr_modulus, fr_mul, lemma_fr_ext, Fr};
use crate::poseidon::{parameters, Parameters};
use vstd::arithmetic::power2::pow2;
use vstd::prelude::*;

verus! {

/// A field variable: the number of its wire.
#[derive(Clone, Copy, Debug, PartialEq, Eq, Structural)]
pub struct Var {
    /// The wire.
    pub wire: usize,
}

/// A boolean variable: the number of its wire.
#[derive(Clone, Copy, Debug, PartialEq, Eq, Structural)]
pub struct Bit {
    /// The wire.
    pub wire: usize,
}

/// One operation of a circuit. Operands are wire numbers.
#[derive(Debug)]
pub enum Gate {
    /// The public input with this number.
    Input(usize),
    /// The field witness with this number.
    Witness(usize),
    /// The boolean witness with this number.
    Boolean(usize),
    /// A constant.
    Constant(Fr),
    /// A sum.
    Sum(usize, usize),
    /// A product.
    Product(usize, usize),
    /// A square.
    Square(usize),
    /// The second operand where the first, a boolean, is set; else the third.
    Select(usize, usize, usize),
    /// The boolean that says that two field variables differ.
    IsNeq(usize, usize),
    /// The number that booleans spell, least significant first, which is
    /// enforced to be a canonical integer.
    FromBits(Vec<usize>),
    /// Enforces that two field variables are equal.
    EnforceEqual(usize, usize),
    /// Enforces that the last two operands are equal where the first, a
    /// boolean, is set.
    EnforceEqualIf(usize, usize, usize),
}

/// The values that a prover puts in for a circuit's public inputs, field
/// witnesses and boolean witnesses. Field values are canonical integers.
pub struct Assignment {
    /// The public inputs, in order.
    pub inputs: Seq<nat>,
    /// The field witnesses, in order.
    pub witnesses: Seq<nat>,
    /// The boolean witnesses, in order.
    pub bits: Seq<bool>,
}

/// Why a circuit gives no constraint system.
#[derive(Clone, Copy, Debug, PartialEq, Eq, Structural)]
pub enum SynthesisError {
    /// An input or a witness has no value.
    AssignmentMissing,
}

/// The number that the first `n` of some bits spell, least significant first.
pub open spec fn le_prefix(bits: Seq<bool>, n: nat) -> nat
    decreases n,
{
    if n == 0 {
        0
    } else {
        le_prefix(bits, (n - 1) as nat) + if bits[n - 1] {
            pow2((n - 1) as nat)
        } else {
            0
        }
    }
}

/// The number that bits spell, least significant first.
pub open spec fn le_nat(bits: Seq<bool>) -> nat {
    le_prefix(bits, bits.len())
}

/// The bits that some wires hold.
pub open spec fn wire_bits(wires: Seq<usize>, vals: Seq<nat>) -> Seq<bool> {
    Seq::new(wires.len(), |i: int| vals[wires[i] as int] != 0)
}

/// The value that a gate gives its wire, from the values of the wires before
/// it. A gate that enforces gives its wire zero.
pub open spec fn gate_value(g: Gate, vals: Seq<nat>, asg: Assignment) -> nat {
    match g {
        Gate::Input(i) => asg.inputs[i as int],
        Gate::Witness(i) => asg.witnesses[i as int],
        Gate::Boolean(i) => if asg.bits[i as int] {
            1
        } else {
            0
        },
        Gate::Constant(k) => k.value(),
        Gate::Sum(a, b) => fr_add(vals[a as int], vals[b as int]),
        Gate::Product(a, b) => fr_mul(vals[a as int], vals[b as int]),
        Gate::Square(a) => fr_mul(vals[a as int], vals[a as int]),
        Gate::Select(bit, a, b) => if vals[bit as int] != 0 {
            vals[a as int]
        } else {
            vals[b as int]
        },
        Gate::IsNeq(a, b) => if vals[a as int] != vals[b as int] {
            1
        } else {
            0
        },
        Gate::FromBits(wires) => le_nat(wire_bits(wires@, vals)) % fr_modulus(),
        Gate::EnforceEqual(_, _) => 0,
        Gate::EnforceEqualIf(_, _, _) => 0,
    }
}

/// Whether what a gate enforces, if anything, holds.
pub open spec fn gate_holds(g: Gate, vals: Seq<nat>) -> bool {
    match g {
        Gate::FromBits(wires) => le_nat(wire_bits(wires@, vals)) < fr_modulus(),
        Gate::EnforceEqual(a, b) => vals[a as int] == vals[b as int],
        Gate::EnforceEqualIf(bit, a, b) => vals[bit as int] != 0 ==> vals[a as int]
            == vals[b as int],
        _ => true,
    }
}

/// The values of the first `n` wires.
pub open spec fn run(gates: Seq<Gate>, asg: Assignment, n: nat) -> Seq<nat>
    decreases n,
{
    if n == 0 {
        Seq::empty()
    } else {
        let vals = run(gates, asg, (n - 1) as nat);
        vals.push(gate_value(gates[n - 1], vals, asg))
    }
}

/// Whether every equation that the first `n` gates enforce holds.
pub open spec fn holds(gates: Seq<Gate>, asg: Assignment, n: nat) -> bool
    decreases n,
{
    if n == 0 {
        true
    } else {
        &&& holds(gates, asg, (n - 1) as nat)
        &&& gate_holds(gates[n - 1], run(gates, asg, (n - 1) as nat))
    }
}

/// Whether a gate's operands stand before it, and the inputs and witnesses
/// that it takes exist.
pub open spec fn gate_wf(g: Gate, at: nat, inputs: nat, witnesses: nat, bits: nat) -> bool {
    match g {
        Gate::Input(i) => i < inputs,
        Gate::Witness(i) => i < witnesses,
        Gate::Boolean(i) => i < bits,
        Gate::Constant(_) => true,
        Gate::Sum(a, b) => a < at && b < at,
        Gate::Product(a, b) => a < at && b < at,
        Gate::Square(a) => a < at,
        Gate::Select(bit, a, b) => bit < at && a < at && b < at,
        Gate::IsNeq(a, b) => a < at && b < at,
        Gate::FromBits(wires) => forall|i: int| 0 <= i < wires@.len() ==> #[trigger] wires@[i] < at,
        Gate::EnforceEqual(a, b) => a < at && b < at,
        Gate::EnforceEqualIf(bit, a, b) => bit < at && a < at && b < at,
    }
}

/// A wire's values depend on the gates up to it alone.
proof fn lemma_run_prefix(g: Seq<Gate>, h: Seq<Gate>, asg: Assignment, n: nat)
    requires
        n <= g.len(),
        n <= h.len(),
        forall|i: int| 0 <= i < n ==> g[i] == h[i],
    ensures
        run(g, asg, n) == run(h, asg, n),
        holds(g, asg, n) == holds(h, asg, n),
    decreases n,
{
    if n > 0 {
        lemma_run_prefix(g, h, asg, (n - 1) as nat);
    }
}

/// What a run says of earlier wires stays as it is.
proof fn lemma_run_stable(g: Seq<Gate>, asg: Assignment, m: nat, n: nat)
    requires
        m <= n,
    ensures
        run(g, asg, n).len() == n,
        run(g, asg, m).len() == m,
        forall|w: int| 0 <= w < m ==> run(g, asg, n)[w] == run(g, asg, m)[w],
    decreases n,
{
    if n > m {
        lemma_run_stable(g, asg, m, (n - 1) as nat);
    } else if n > 0 {
        lemma_run_stable(g, asg, (n - 1) as nat, (n - 1) as nat);
    }
}

/// A circuit under construction, with the values known for its inputs and
/// witnesses. A value is missing where a circuit is built for key generation.
#[derive(Debug)]
pub struct Circuit {
    /// The gates, in order.
    pub gates: Vec<Gate>,
    /// The public inputs, in order.
    pub inputs: Vec<Option<Fr>>,
    /// The field witnesses, in order.
    pub witnesses: Vec<Option<Fr>>,
    /// The boolean witnesses, in order.
    pub bits: Vec<Option<bool>>,
    /// The hash parameters that the gadgets use.
    pub params: Parameters,
}

/// Two circuits with the same gates mean the same.
proof fn lemma_same_gates(c: Circuit, d: Circuit)
    requires
        c.gates@ == d.gates@,
    ensures
        forall|asg: Assignment, w: int| #[trigger] d.val(asg, w) == c.val(asg, w),
        forall|asg: Assignment| #[trigger] d.sat(asg) == c.sat(asg),
{
}

impl Circuit {
    /// The number of wires.
    pub open spec fn size(self) -> nat {
        self.gates@.len()
    }

    /// The value of a wire under an assignment.
    pub closed spec fn val(self, asg: Assignment, wire: int) -> nat {
        run(self.gates@, asg, self.size())[wire]
    }

    /// Whether an assignment meets every enforced equation.
    pub closed spec fn sat(self, asg: Assignment) -> bool {
        holds(self.gates@, asg, self.size())
    }

    /// Every gate takes what stands before it, and the gadgets hash with the
    /// protocol's constants.
    pub open spec fn wf(self) -> bool {
        &&& self.params.is_protocol()
        &&& self.gates_wf()
    }

    /// Every gate takes what stands before it.
    pub closed spec fn gates_wf(self) -> bool {
        forall|i: int|
            0 <= i < self.gates@.len() ==> gate_wf(
                #[trigger] self.gates@[i],
                i as nat,
                self.inputs@.len(),
                self.witnesses@.len(),
                self.bits@.len(),
            )
    }

    /// `new` has all the gates of this circuit, and maybe more behind them:
    /// the wires of this circuit keep their values.
    pub open spec fn extended(self, new: Circuit) -> bool {
        &&& new.wf()
        &&& self.size() <= new.size()
        &&& forall|i: int| 0 <= i < self.size() ==> #[trigger] new.gates@[i] == self.gates@[i]
        &&& forall|asg: Assignment, w: int|
            0 <= w < self.size() ==> #[trigger] new.val(asg, w) == self.val(asg, w)
    }

    /// `new` takes the same inputs and witnesses as this circuit.
    pub open spec fn same_streams(self, new: Circuit) -> bool {
        &&& new.inputs@ == self.inputs@
        &&& new.witnesses@ == self.witnesses@
        &&& new.bits@ == self.bits@
    }

    /// `new` has gates behind those of this circuit that only compute: they
    /// enforce nothing and take no input or witness.
    pub open spec fn computes(self, new: Circuit) -> bool {
        &&& self.extended(new)
        &&& self.same_streams(new)
        &&& forall|asg: Assignment| #[trigger] new.sat(asg) == self.sat(asg)
    }

    /// A circuit without gates.
    pub fn new() -> (c: Circuit)
        ensures
            c.wf(),
            c.size() == 0,
            c.inputs@.len() == 0,
            c.witnesses@.len() == 0,
            c.bits@.len() == 0,
            forall|asg: Assignment| #[trigger] c.sat(asg),
    {
        Circuit {
            gates: Vec::new(),
            inputs: Vec::new(),
            witnesses: Vec::new(),
            bits: Vec::new(),
            params: parameters(),
        }
    }

    /// Appends a gate.
    fn push(&mut self, gate: Gate) -> (wire: usize)
        requires
            old(self).wf(),
            gate_wf(
                gate,
                old(self).size(),
                old(self).inputs@.len(),
                old(self).witnesses@.len(),
                old(self).bits@.len(),
            ),
        ensures
            old(self).extended(*final(self)),
            old(self).same_streams(*final(self)),
            wire == old(self).size(),
            final(self).gates@ == old(self).gates@.push(gate),
            forall|asg: Assignment| #[trigger]
                final(self).sat(asg) == (old(self).sat(asg) && gate_holds(
                    gate,
                    run(old(self).gates@, asg, old(self).size()),
                )),
            forall|asg: Assignment| #[trigger]
                final(self).val(asg, wire as int) == gate_value(
                    gate,
                    run(old(self).gates@, asg, old(self).size()),
                    asg,
                ),
    {
        let wire: usize = self.gates.len();
        self.gates.push(gate);
        proof {
            let g = old(self).gates@;
            let h = self.gates@;
            let n = g.len();
            assert forall|asg: Assignment, w: int| 0 <= w < n implies #[trigger] self.val(asg, w)
                == old(self).val(asg, w) by {
                lemma_run_prefix(g, h, asg, n);
                lemma_run_stable(h, asg, n, n + 1);
            }
            assert forall|asg: Assignment| #[trigger]
                self.val(asg, wire as int) == gate_value(gate, run(g, asg, n), asg) by {
                lemma_run_prefix(g, h, asg, n);
                lemma_run_stable(h, asg, n, n);
            }
            assert forall|asg: Assignment| #[trigger]
                self.sat(asg) == (old(self).sat(asg) && gate_holds(gate, run(g, asg, n))) by {
                lemma_run_prefix(g, h, asg, n);
            }
        }
        wire
    }

    /// Allocates a public input.
    pub fn new_input(&mut self, value: Option<Fr>) -> (var: Var)
        requires
            old(self).wf(),
        ensures
            old(self).extended(*final(self)),
            final(self).inputs@ == old(self).inputs@.push(value),
            final(self).witnesses@ == old(self).witnesses@,
            final(self).bits@ == old(self).bits@,
            final(self).size() == old(self).size() + 1,
            var.wire == old(self).size(),
            final(self).gates@[var.wire as int] == Gate::Input(old(self).inputs@.len() as usize),
            forall|asg: Assignment| #[trigger] final(self).sat(asg) == old(self).sat(asg),
            forall|asg: Assignment| #[trigger]
                final(self).val(asg, var.wire as int) == asg.inputs[old(self).inputs@.len() as int],
    {
        let number: usize = self.inputs.len();
        self.inputs.push(value);
        let ghost mid = *self;
        proof {
            assert(mid.wf());
            lemma_same_gates(*old(self), mid);
        }
        let wire: usize = self.push(Gate::Input(number));
        Var { wire }
    }

    /// Allocates a field witness.
    pub fn new_witness(&mut self, value: Option<Fr>) -> (var: Var)
        requires
            old(self).wf(),
        ensures
            old(self).extended(*final(self)),
            final(self).inputs@ == old(self).inputs@,
            final(self).witnesses@ == old(self).witnesses@.push(value),
            final(self).bits@ == old(self).bits@,
            final(self).size() == old(self).size() + 1,
            var.wire == old(self).size(),
            forall|asg: Assignment| #[trigger] final(self).sat(asg) == old(self).sat(asg),
            forall|asg: Assignment| #[trigger]
                final(self).val(asg, var.wire as int) == asg.witnesses[old(
                    self,
                ).witnesses@.len() as int],
    {
        let number: usize = self.witnesses.len();
        self.witnesses.push(value);
        let ghost mid = *self;
        proof {
            assert(mid.wf());
            lemma_same_gates(*old(self), mid);
        }
        let wire: usize = self.push(Gate::Witness(number));
        Var { wire }
    }

    /// Allocates a boolean witness.
    pub fn new_bit(&mut self, value: Option<bool>) -> (bit: Bit)
        requires
            old(self).wf(),
        ensures
            old(self).extended(*final(self)),
            final(self).inputs@ == old(self).inputs@,
            final(self).witnesses@ == old(self).witnesses@,
            final(self).bits@ == old(self).bits@.push(value),
            final(self).size() == old(self).size() + 1,
            bit.wire == old(self).size(),
            forall|asg: Assignment| #[trigger] final(self).sat(asg) == old(self).sat(asg),
            forall|asg: Assignment|
                (#[trigger] final(self).val(asg, bit.wire as int) != 0) == asg.bits[old(
                    self,
                ).bits@.len() as int],
    {
        let number: usize = self.bits.len();
        self.bits.push(value);
        let ghost mid = *self;
        proof {
            assert(mid.wf());
            lemma_same_gates(*old(self), mid);
        }
        let wire: usize = self.push(Gate::Boolean(number));
        Bit { wire }
    }

    /// A constant.
    pub fn constant(&mut self, value: Fr) -> (var: Var)
        requires
            old(self).wf(),
        ensures
            old(self).computes(*final(self)),
            var.wire < final(self).size(),
            forall|asg: Assignment| #[trigger]
                final(self).val(asg, var.wire as int) == value.value(),
    {
        let wire: usize = self.push(Gate::Constant(value));
        Var { wire }
    }

    /// A sum.
    pub fn sum(&mut self, a: Var, b: Var) -> (var: Var)
        requires
            old(self).wf(),
            a.wire < old(self).size(),
            b.wire < old(self).size(),
        ensures
            old(self).computes(*final(self)),
            var.wire < final(self).size(),
            forall|asg: Assignment| #[trigger]
                final(self).val(asg, var.wire as int) == fr_add(
                    old(self).val(asg, a.wire as int),
                    old(self).val(asg, b.wire as int),
                ),
    {
        let wire: usize = self.push(Gate::Sum(a.wire, b.wire));
        Var { wire }
    }

    /// A product.
    pub fn product(&mut self, a: Var, b: Var) -> (var: Var)
        requires
            old(self).wf(),
            a.wire < old(self).size(),
            b.wire < old(self).size(),
        ensures
            old(self).computes(*final(self)),
            var.wire < final(self).size(),
            final(self).gates@[var.wire as int] == Gate::Product(a.wire, b.wire),
            forall|asg: Assignment| #[trigger]
                final(self).val(asg, var.wire as int) == fr_mul(
                    old(self).val(asg, a.wire as int),
                    old(self).val(asg, b.wire as int),
                ),
    {
        let wire: usize = self.push(Gate::Product(a.wire, b.wire));
        Var { wire }
    }

    /// A square.
    pub fn square(&mut self, a: Var) -> (var: Var)
        requires
            old(self).wf(),
            a.wire < old(self).size(),
        ensures
            old(self).computes(*final(self)),
            var.wire < final(self).size(),
            forall|asg: Assignment| #[trigger]
                final(self).val(asg, var.wire as int) == fr_mul(
                    old(self).val(asg, a.wire as int),
                    old(self).val(asg, a.wire as int),
                ),
    {
        let wire: usize = self.push(Gate::Square(a.wire));
        Var { wire }
    }

    /// `a` where the bit is set, else `b`.
    pub fn select(&mut self, bit: Bit, a: Var, b: Var) -> (var: Var)
        requires
            old(self).wf(),
            bit.wire < old(self).size(),
            a.wire < old(self).size(),
            b.wire < old(self).size(),
        ensures
            old(self).computes(*final(self)),
            var.wire < final(self).size(),
            forall|asg: Assignment| #[trigger]
                final(self).val(asg, var.wire as int) == if old(self).val(asg, bit.wire as int)
                    != 0 {
                    old(self).val(asg, a.wire as int)
                } else {
                    old(self).val(asg, b.wire as int)
                },
    {
        let wire: usize = self.push(Gate::Select(bit.wire, a.wire, b.wire));
        Var { wire }
    }

    /// Whether two variables differ.
    pub fn is_neq(&mut self, a: Var, b: Var) -> (bit: Bit)
        requires
            old(self).wf(),
            a.wire < old(self).size(),
            b.wire < old(self).size(),
        ensures
            old(self).computes(*final(self)),
            bit.wire < final(self).size(),
            forall|asg: Assignment|
                (#[trigger] final(self).val(asg, bit.wire as int) != 0) == (old(self).val(
                    asg,
                    a.wire as int,
                ) != old(self).val(asg, b.wire as int)),
    {
        let wire: usize = self.push(Gate::IsNeq(a.wire, b.wire));
        Bit { wire }
    }

    /// The values of some bits under an assignment.
    pub open spec fn bit_vals(self, asg: Assignment, bits: Seq<Bit>) -> Seq<bool> {
        Seq::new(bits.len(), |i: int| self.val(asg, bits[i].wire as int) != 0)
    }

    /// The number that bits spell, least significant first, in the field.
    /// Enforces that it is a canonical integer.
    pub fn from_bits(&mut self, bits: &Vec<Bit>) -> (var: Var)
        requires
            old(self).wf(),
            forall|i: int| 0 <= i < bits@.len() ==> (#[trigger] bits@[i]).wire < old(self).size(),
        ensures
            old(self).extended(*final(self)),
            old(self).same_streams(*final(self)),
            var.wire < final(self).size(),
            forall|asg: Assignment| #[trigger]
                final(self).sat(asg) == (old(self).sat(asg) && le_nat(
                    old(self).bit_vals(asg, bits@),
                ) < fr_modulus()),
            forall|asg: Assignment| #[trigger]
                final(self).val(asg, var.wire as int) == le_nat(old(self).bit_vals(asg, bits@))
                    % fr_modulus(),
    {
        let mut wires: Vec<usize> = Vec::new();
        let mut i: usize = 0;
        while i < bits.len()
            invariant
                i <= bits@.len(),
                wires@.len() == i,
                forall|k: int| 0 <= k < i ==> #[trigger] wires@[k] == bits@[k].wire,
            decreases bits@.len() - i,
        {
            wires.push(bits[i].wire);
            i = i + 1;
        }
        let ghost ws = wires@;
        let wire: usize = self.push(Gate::FromBits(wires));
        proof {
            assert forall|asg: Assignment|
                #![trigger self.val(asg, wire as int)]
                #![trigger self.sat(asg)]
                {
                    let spelled = le_nat(old(self).bit_vals(asg, bits@));
                    &&& self.val(asg, wire as int) == spelled % fr_modulus()
                    &&& self.sat(asg) == (old(self).sat(asg) && spelled < fr_modulus())
                } by {
                assert(wire_bits(ws, run(old(self).gates@, asg, old(self).size())) =~= old(
                    self,
                ).bit_vals(asg, bits@));
            }
        }
        Var { wire }
    }

    /// Enforces that two variables are equal.
    pub fn enforce_equal(&mut self, a: Var, b: Var)
        requires
            old(self).wf(),
            a.wire < old(self).size(),
            b.wire < old(self).size(),
        ensures
            old(self).extended(*final(self)),
            old(self).same_streams(*final(self)),
            forall|asg: Assignment| #[trigger]
                final(self).sat(asg) == (old(self).sat(asg) && old(self).val(asg, a.wire as int)
                    == old(self).val(asg, b.wire as int)),
    {
        self.push(Gate::EnforceEqual(a.wire, b.wire));
    }

    /// Enforces that two variables are equal where the bit is set.
    pub fn conditional_enforce_equal(&mut self, bit: Bit, a: Var, b: Var)
        requires
            old(self).wf(),
            bit.wire < old(self).size(),
            a.wire < old(self).size(),
            b.wire < old(self).size(),
        ensures
            old(self).extended(*final(self)),
            old(self).same_streams(*final(self)),
            forall|asg: Assignment| #[trigger]
                final(self).sat(asg) == (old(self).sat(asg) && (old(self).val(
                    asg,
                    bit.wire as int,
                ) != 0 ==> old(self).val(asg, a.wire as int) == old(self).val(
                    asg,
                    b.wire as int,
                ))),
    {
        self.push(Gate::EnforceEqualIf(bit.wire, a.wire, b.wire));
    }

    /// Every input and witness has a value.
    pub open spec fn assigned(self) -> bool {
        &&& forall|i: int| 0 <= i < self.inputs@.len() ==> (#[trigger] self.inputs@[i]) is Some
        &&& forall|i: int|
            0 <= i < self.witnesses@.len() ==> (#[trigger] self.witnesses@[i]) is Some
        &&& forall|i: int| 0 <= i < self.bits@.len() ==> (#[trigger] self.bits@[i]) is Some
    }

    /// The values that this circuit holds for its inputs and witnesses.
    pub open spec fn assignment(self) -> Assignment {
        Assignment {
            inputs: Seq::new(self.inputs@.len(), |i: int| self.inputs@[i]->0.value()),
            witnesses: Seq::new(self.witnesses@.len(), |i: int| self.witnesses@[i]->0.value()),
            bits: Seq::new(self.bits@.len(), |i: int| self.bits@[i]->0),
        }
    }

    /// Whether the values that this circuit holds meet every enforced
    /// equation.
    pub fn is_satisfied(&self) -> (result: Result<bool, SynthesisError>)
        requires
            self.wf(),
        ensures
            self.assigned() ==> result == Ok::<bool, SynthesisError>(self.sat(self.assignment())),
            !self.assigned() ==> result == Err::<bool, SynthesisError>(
                SynthesisError::AssignmentMissing,
            ),
    {
        match self.evaluate() {
            Ok((_, holding)) => Ok(holding),
            Err(e) => Err(e),
        }
    }

    /// The value of a field variable under the values that this circuit holds.
    pub fn value(&self, var: Var) -> (result: Result<Fr, SynthesisError>)
        requires
            self.wf(),
            var.wire < self.size(),
        ensures
            match result {
                Ok(x) => self.assigned() && x.value() == self.val(
                    self.assignment(),
                    var.wire as int,
                ),
                Err(e) => !self.assigned(),
            },
    {
        match self.evaluate() {
            Ok((vals, _)) => {
                proof {
                    lemma_run_stable(self.gates@, self.assignment(), self.size(), self.size());
                    assert(values(vals@).len() == vals@.len());
                }
                Ok(vals[var.wire])
            },
            Err(e) => Err(e),
        }
    }

    /// The values of the wires, and whether every enforced equation holds.
    fn evaluate(&self) -> (result: Result<(Vec<Fr>, bool), SynthesisError>)
        requires
            self.wf(),
        ensures
            match result {
                Ok((vals, holding)) => {
                    &&& self.assigned()
                    &&& values(vals@) == run(self.gates@, self.assignment(), self.size())
                    &&& holding == self.sat(self.assignment())
                },
                Err(e) => !self.assigned() && e == SynthesisError::AssignmentMissing,
            },
    {
        if !(all_given(&self.inputs) && all_given(&self.witnesses) && all_given(&self.bits)) {
            return Err(SynthesisError::AssignmentMissing);
        }
        let ghost asg = self.assignment();
        let mut vals: Vec<Fr> = Vec::new();
        let mut holding: bool = true;
        let mut i: usize = 0;
        while i < self.gates.len()
            invariant
                i <= self.gates@.len(),
                self.wf(),
                self.assigned(),
                asg == self.assignment(),
                values(vals@) == run(self.gates@, asg, i as nat),
                holding == holds(self.gates@, asg, i as nat),
            decreases self.gates@.len() - i,
        {
            let gate: &Gate = &self.gates[i];
            proof {
                lemma_run_stable(self.gates@, asg, i as nat, i as nat);
                assert(values(vals@).len() == i);
                assert(gate_wf(
                    self.gates@[i as int],
                    i as nat,
                    self.inputs@.len(),
                    self.witnesses@.len(),
                    self.bits@.len(),
                ));
            }
            let value: Fr = self.gate_eval(gate, &vals);
            let ghost before = values(vals@);
            match gate {
                Gate::EnforceEqual(a, b) => {
                    proof {
                        lemma_fr_ext_iff(vals@[*a as int], vals@[*b as int]);
                    }
                    if vals[*a] != vals[*b] {
                        holding = false;
                    }
                },
                Gate::EnforceEqualIf(bit, a, b) => {
                    proof {
                        lemma_fr_ext_iff(vals@[*a as int], vals@[*b as int]);
                    }
                    if is_set(&vals[*bit]) && vals[*a] != vals[*b] {
                        holding = false;
                    }
                },
                Gate::FromBits(wires) => {
                    if !bits_canonical(wires, &vals) {
                        holding = false;
                    }
                },
                _ => {},
            }
            vals.push(value);
            proof {
                assert(values(vals@) =~= before.push(value.value()));
            }
            i = i + 1;
        }
        Ok((vals, holding))
    }

    /// The value that a gate gives its wire.
    fn gate_eval(&self, gate: &Gate, vals: &Vec<Fr>) -> (value: Fr)
        requires
            self.wf(),
            self.assigned(),
            gate_wf(
                *gate,
                vals@.len(),
                self.inputs@.len(),
                self.witnesses@.len(),
                self.bits@.len(),
            ),
        ensures
            value.value() == gate_value(*gate, values(vals@), self.assignment()),
    {
        match gate {
            Gate::Input(i) => {
                assert(self.inputs@[*i as int] is Some);
                self.inputs[*i].unwrap()
            },
            Gate::Witness(i) => {
                assert(self.witnesses@[*i as int] is Some);
                self.witnesses[*i].unwrap()
            },
            Gate::Boolean(i) => {
                assert(self.bits@[*i as int] is Some);
                if self.bits[*i].unwrap() {
                    Fr::from_u64(1)
                } else {
                    Fr::zero()
                }
            },
            Gate::Constant(k) => *k,
            Gate::Sum(a, b) => vals[*a].plus(&vals[*b]),
            Gate::Product(a, b) => vals[*a].times(&vals[*b]),
            Gate::Square(a) => vals[*a].times(&vals[*a]),
            Gate::Select(bit, a, b) => if is_set(&vals[*bit]) {
                vals[*a]
            } else {
                vals[*b]
            },
            Gate::IsNeq(a, b) => {
                proof {
                    lemma_fr_ext_iff(vals@[*a as int], vals@[*b as int]);
                }
                if vals[*a] != vals[*b] {
                    Fr::from_u64(1)
                } else {
                    Fr::zero()
                }
            },
            Gate::FromBits(wires) => bits_eval(wires, vals),
            Gate::EnforceEqual(_, _) => Fr::zero(),
            Gate::EnforceEqualIf(_, _, _) => Fr::zero(),
        }
    }
}

/// The integers of field elements.
pub open spec fn values(xs: Seq<Fr>) -> Seq<nat> {
    Seq::new(xs.len(), |i: int| xs[i].value())
}

proof fn lemma_fr_ext_iff(a: Fr, b: Fr)
    ensures
        (a == b) == (a.value() == b.value()),
{
    if a.value() == b.value() {
        lemma_fr_ext(a, b);
    }
}

/// Whether the wire of a boolean variable is set.
fn is_set(x: &Fr) -> (set: bool)
    ensures
        set == (x.value() != 0),
{
    let zero: Fr = Fr::zero();
    proof {
        lemma_fr_ext_iff(*x, zero);
    }
    *x != zero
}

/// Whether no value is missing.
fn all_given<T>(xs: &Vec<Option<T>>) -> (given: bool)
    ensures
        given == (forall|i: int| 0 <= i < xs@.len() ==> (#[trigger] xs@[i]) is Some),
{
    let mut i: usize = 0;
    while i < xs.len()
        invariant
            i <= xs@.len(),
            forall|k: int| 0 <= k < i ==> (#[trigger] xs@[k]) is Some,
        decreases xs@.len() - i,
    {
        if xs[i].is_none() {
            assert(!(xs@[i as int] is Some));
            return false;
        }
        i = i + 1;
    }
    true
}

/// One more bit decides the comparison of two numbers, unless it is the same.
proof fn lemma_compared(below: nat, low: nat, weight: nat, set: bool, other: nat)
    requires
        below < weight,
        low < weight,
        other < 2,
    ensures
        ({
            let sum = below + if set {
                weight
            } else {
                0
            };
            sum < low + other * weight <==> if set == (other == 1) {
                below < low
            } else {
                !set
            }
        }),
{
    assert(other * weight == if other == 1 {
        weight
    } else {
        0
    }) by (nonlinear_arith)
        requires
            other < 2,
    ;
}

/// Whether the number that bits spell is less than the order of the field. The
/// order is compared bit by bit, least significant first.
fn bits_canonical(wires: &Vec<usize>, vals: &Vec<Fr>) -> (canonical: bool)
    requires
        forall|i: int| 0 <= i < wires@.len() ==> #[trigger] wires@[i] < vals@.len(),
    ensures
        canonical == (le_nat(wire_bits(wires@, values(vals@))) < fr_modulus()),
{
    let ghost bits = wire_bits(wires@, values(vals@));
    let ghost mut low: nat = 0;
    let mut l0: u64 = 0xffff_ffff_0000_0001;
    let mut l1: u64 = 0x53bd_a402_fffe_5bfe;
    let mut l2: u64 = 0x3339_d808_09a1_d805;
    let mut l3: u64 = 0x73ed_a753_299d_7d48;
    let mut less: bool = false;
    let mut i: usize = 0;
    proof {
        vstd::arithmetic::power2::lemma2_to64();
    }
    while i < wires.len()
        invariant
            i <= wires@.len(),
            bits == wire_bits(wires@, values(vals@)),
            forall|k: int| 0 <= k < wires@.len() ==> #[trigger] wires@[k] < vals@.len(),
            low < pow2(i as nat),
            le_prefix(bits, i as nat) < pow2(i as nat),
            fr_modulus() == low + limbs_nat(l0, l1, l2, l3) * pow2(i as nat),
            less == (le_prefix(bits, i as nat) < low),
        decreases wires@.len() - i,
    {
        let set: bool = is_set(&vals[wires[i]]);
        let other: bool = l0 % 2 == 1;
        let ghost weight = pow2(i as nat);
        let ghost rest = limbs_nat(l0, l1, l2, l3);
        let ghost half = limbs_nat(
            (l0 / 2 + (l1 % 2) * 0x8000_0000_0000_0000) as u64,
            (l1 / 2 + (l2 % 2) * 0x8000_0000_0000_0000) as u64,
            (l2 / 2 + (l3 % 2) * 0x8000_0000_0000_0000) as u64,
            l3 / 2,
        );
        proof {
            let bit: nat = if other {
                1
            } else {
                0
            };
            vstd::arithmetic::power2::lemma_pow2_unfold((i + 1) as nat);
            lemma_compared(le_prefix(bits, i as nat), low, weight, set, bit);
            assert(rest == 2 * half + bit);
            assert(rest * weight == half * (2 * weight) + bit * weight) by (nonlinear_arith)
                requires
                    rest == 2 * half + bit,
            ;
            assert(bit * weight <= weight) by (nonlinear_arith)
                requires
                    bit <= 1,
            ;
            low = low + bit * weight;
        }
        if set != other {
            less = !set;
        }
        l0 = l0 / 2 + (l1 % 2) * 0x8000_0000_0000_0000;
        l1 = l1 / 2 + (l2 % 2) * 0x8000_0000_0000_0000;
        l2 = l2 / 2 + (l3 % 2) * 0x8000_0000_0000_0000;
        l3 = l3 / 2;
        i = i + 1;
    }
    proof {
        let rest = limbs_nat(l0, l1, l2, l3);
        let weight = pow2(i as nat);
        assert(if rest == 0 {
            rest * weight == 0
        } else {
            rest * weight >= weight
        }) by (nonlinear_arith);
    }
    less || l0 != 0 || l1 != 0 || l2 != 0 || l3 != 0
}

/// The number that four limbs spell, least significant first.
spec fn limbs_nat(l0: u64, l1: u64, l2: u64, l3: u64) -> nat {
    (l0 + 0x1_0000_0000_0000_0000 * l1 + 0x1_0000_0000_0000_0000_0000_0000_0000_0000 * l2
        + 0x1_0000_0000_0000_0000_0000_0000_0000_0000_0000_0000_0000_0000 * l3) as nat
}

/// The number that bits spell, least significant first, in the field.
fn bits_eval(wires: &Vec<usize>, vals: &Vec<Fr>) -> (number: Fr)
    requires
        forall|i: int| 0 <= i < wires@.len() ==> #[trigger] wires@[i] < vals@.len(),
    ensures
        number.value() == le_nat(wire_bits(wires@, values(vals@))) % fr_modulus(),
{
    let ghost bits = wire_bits(wires@, values(vals@));
    let mut number: Fr = Fr::zero();
    let mut power: Fr = Fr::from_u64(1);
    let mut i: usize = 0;
    proof {
        vstd::arithmetic::power2::lemma2_to64();
    }
    while i < wires.len()
        invariant
            i <= wires@.len(),
            bits == wire_bits(wires@, values(vals@)),
            forall|k: int| 0 <= k < wires@.len() ==> #[trigger] wires@[k] < vals@.len(),
            number.value() == le_prefix(bits, i as nat) % fr_modulus(),
            power.value() == pow2(i as nat) % fr_modulus(),
        decreases wires@.len() - i,
    {
        let ghost r = fr_modulus() as int;
        proof {
            let below = le_prefix(bits, i as nat) as int;
            let weight = pow2(i as nat) as int;
            vstd::arithmetic::div_mod::lemma_add_mod_noop(below, weight, r);
            vstd::arithmetic::div_mod::lemma_add_mod_noop(weight, weight, r);
            vstd::arithmetic::power2::lemma_pow2_unfold((i + 1) as nat);
        }
        if is_set(&vals[wires[i]]) {
            number = number.plus(&power);
        }
        power = power.plus(&power);
        i = i + 1;
    }
    number
}

} // verus!
