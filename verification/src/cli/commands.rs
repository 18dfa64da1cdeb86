//! The commands: what they print, and what they prove.

use super::args::{
    hex32, one, one_of, parse_flags, parse_fr, parse_number, parsed_flags, parsed_fr,
    parsed_number, two, two_of, Flags, OutputParts, SpendParts, TryParse,
};
use crate::encoding::fr_encoding;
use crate::field::Fr;
use crate::hex_codec::hex_encoded;
use crate::note::{commitment_of, derive_pk, pk_of, Note};
use crate::prover::{Output, Spend};
use crate::text::{append_str, chars_of, decimal, field_line, string_of, strings, to_decimal};
use ark_ff::{PrimeField, UniformRand};
use vstd::prelude::*;

verus! {

/// `UniformRand::rand` of `ark_bls12_381::Fr` on `rand::rngs::OsRng`: some
/// element of the field. Which one is left to chance.
#[verifier::external_body]
fn ark_fr_rand() -> (x: Fr) {
    let z = ark_bls12_381::Fr::rand(&mut rand::rngs::OsRng).into_bigint().0;
    Fr { l0: z[0], l1: z[1], l2: z[2], l3: z[3] }
}

/// A line that shows a field element under a name.
pub open spec fn shown(name: Seq<char>, x: nat) -> Seq<char> {
    field_line((name, hex_encoded(fr_encoding(x))))
}

/// A line that shows a field element under a name.
fn show(name: &str, x: Fr) -> (line: String)
    ensures
        line@ == shown(name@, x.value()),
{
    let mut out: Vec<char> = chars_of(name);
    append_str(&mut out, "=");
    append_str(&mut out, hex32(x).as_str());
    string_of(&out)
}

/// What is printed of a fresh key pair.
pub open spec fn key_lines(sk: nat) -> Seq<Seq<char>> {
    seq![shown("sk"@, sk), shown("pk"@, pk_of(sk))]
}

/// Shows a key pair.
pub fn show_keys(sk: Fr) -> (printed: Vec<String>)
    ensures
        strings(printed@) == key_lines(sk.value()),
{
    let printed: Vec<String> = vec![show("sk", sk), show("pk", derive_pk(sk))];
    proof {
        assert(strings(printed@) =~= key_lines(sk.value()));
    }
    printed
}

/// `keygen`: a fresh key pair.
pub fn cmd_keygen() -> (printed: Vec<String>)
    ensures
        exists|sk: Fr| strings(printed@) == #[trigger] key_lines(sk.value()),
{
    show_keys(ark_fr_rand())
}

/// What `pk` prints, or what is wrong with its arguments.
pub open spec fn pk_output(args: Seq<Seq<char>>) -> Result<Seq<Seq<char>>, Seq<char>> {
    match parsed_flags(args) {
        Err(e) => Err(e),
        Ok(flags) => match one_of(flags, "sk"@) {
            Err(e) => Err(e),
            Ok(text) => match parsed_fr(text) {
                Err(e) => Err(e),
                Ok(sk) => Ok(seq![shown("pk"@, pk_of(sk))]),
            },
        },
    }
}

/// `pk`: the public key of a spending key.
pub fn cmd_pk(args: &[String]) -> (output: Result<Vec<String>, String>)
    ensures
        match output {
            Ok(printed) => pk_output(strings(args@)) == Ok::<Seq<Seq<char>>, Seq<char>>(
                strings(printed@),
            ),
            Err(e) => pk_output(strings(args@)) == Err::<Seq<Seq<char>>, Seq<char>>(e@),
        },
{
    let flags: Flags = match parse_flags(args) {
        Ok(flags) => flags,
        Err(e) => {
            return Err(e);
        },
    };
    let text: &str = match one(&flags, "sk") {
        Ok(text) => text,
        Err(e) => {
            return Err(e);
        },
    };
    let sk: Fr = match parse_fr(text) {
        Ok(sk) => sk,
        Err(e) => {
            return Err(e);
        },
    };
    let printed: Vec<String> = vec![show("pk", derive_pk(sk))];
    proof {
        assert(strings(printed@) =~= seq![shown("pk"@, pk_of(sk.value()))]);
    }
    Ok(printed)
}

/// What `note` asks for: a value, an owner and, if it is given, a blinding.
pub struct NoteParts {
    pub value: nat,
    pub owner_pk: nat,
    pub blinding: Option<nat>,
}

/// What the arguments of `note` ask for, or what is wrong with them.
pub open spec fn note_request(args: Seq<Seq<char>>) -> Result<NoteParts, Seq<char>> {
    match parsed_flags(args) {
        Err(e) => Err(e),
        Ok(flags) => match one_of(flags, "value"@) {
            Err(e) => Err(e),
            Ok(value) => match parsed_number("--value"@, value) {
                Err(e) => Err(e),
                Ok(value) => match one_of(flags, "owner-pk"@) {
                    Err(e) => Err(e),
                    Ok(owner) => match parsed_fr(owner) {
                        Err(e) => Err(e),
                        Ok(owner_pk) => if !flags.dom().contains("blinding"@) {
                            Ok(NoteParts { value, owner_pk, blinding: None })
                        } else {
                            match one_of(flags, "blinding"@) {
                                Err(e) => Err(e),
                                Ok(text) => match parsed_fr(text) {
                                    Err(e) => Err(e),
                                    Ok(b) => Ok(NoteParts { value, owner_pk, blinding: Some(b) }),
                                },
                            }
                        },
                    },
                },
            },
        },
    }
}

/// What is printed of a note.
pub open spec fn note_lines(value: nat, owner_pk: nat, blinding: nat) -> Seq<Seq<char>> {
    seq![
        field_line(("value"@, decimal(value))),
        shown("owner_pk"@, owner_pk),
        shown("blinding"@, blinding),
        shown("commitment"@, commitment_of(value, owner_pk, blinding)),
    ]
}

/// Shows a note and its commitment.
pub fn show_note(note: &Note) -> (printed: Vec<String>)
    ensures
        strings(printed@) == note_lines(
            note.value as nat,
            note.owner_pk.value(),
            note.blinding.value(),
        ),
{
    let mut first: Vec<char> = chars_of("value");
    append_str(&mut first, "=");
    append_str(&mut first, string_of(&to_decimal(note.value as u128)).as_str());
    let printed: Vec<String> = vec![
        string_of(&first),
        show("owner_pk", note.owner_pk),
        show("blinding", note.blinding),
        show("commitment", note.commitment()),
    ];
    proof {
        assert(strings(printed@) =~= note_lines(
            note.value as nat,
            note.owner_pk.value(),
            note.blinding.value(),
        ));
    }
    printed
}

/// Reads the arguments of `note`.
pub fn read_note_request(args: &[String]) -> (request: Result<(u64, Fr, Option<Fr>), String>)
    ensures
        match request {
            Ok((value, owner_pk, blinding)) => {
                &&& note_request(strings(args@)) matches Ok(parts)
                &&& parts.value == value
                &&& parts.owner_pk == owner_pk.value()
                &&& match blinding {
                    Some(b) => parts.blinding == Some(b.value()),
                    None => parts.blinding is None,
                }
            },
            Err(e) => note_request(strings(args@)) == Err::<NoteParts, Seq<char>>(e@),
        },
{
    let flags: Flags = match parse_flags(args) {
        Ok(flags) => flags,
        Err(e) => {
            return Err(e);
        },
    };
    let text: &str = match one(&flags, "value") {
        Ok(text) => text,
        Err(e) => {
            return Err(e);
        },
    };
    let value: u64 = match parse_number("--value", &chars_of(text)) {
        Ok(value) => value,
        Err(e) => {
            return Err(e);
        },
    };
    let text: &str = match one(&flags, "owner-pk") {
        Ok(text) => text,
        Err(e) => {
            return Err(e);
        },
    };
    let owner_pk: Fr = match parse_fr(text) {
        Ok(owner_pk) => owner_pk,
        Err(e) => {
            return Err(e);
        },
    };
    if flags.values("blinding").is_none() {
        return Ok((value, owner_pk, None));
    }
    let text: &str = match one(&flags, "blinding") {
        Ok(text) => text,
        Err(e) => {
            return Err(e);
        },
    };
    match parse_fr(text) {
        Ok(blinding) => Ok((value, owner_pk, Some(blinding))),
        Err(e) => Err(e),
    }
}

/// `note`: a note and its commitment. Without `--blinding`, the blinding is
/// drawn at random.
pub fn cmd_note(args: &[String]) -> (output: Result<Vec<String>, String>)
    ensures
        match note_request(strings(args@)) {
            Err(e) => output matches Err(f) && f@ == e,
            Ok(parts) => {
                &&& output matches Ok(printed)
                &&& match parts.blinding {
                    Some(b) => strings(printed@) == note_lines(parts.value, parts.owner_pk, b),
                    None => exists|b: Fr|
                        #![trigger b.value()]
                        strings(printed@) == note_lines(
                            parts.value,
                            parts.owner_pk,
                            b.value(),
                        ),
                }
            },
        },
{
    match read_note_request(args) {
        Err(e) => Err(e),
        Ok((value, owner_pk, given)) => {
            let blinding: Fr = match given {
                Some(b) => b,
                None => ark_fr_rand(),
            };
            Ok(show_note(&Note { value, owner_pk, blinding }))
        },
    }
}

/// What `prove-transfer` is to prove, and where the bundle goes.
#[derive(Debug)]
pub struct TransferOrder {
    /// The two notes to spend.
    pub spends: [Spend; 2],
    /// The two notes to create.
    pub outputs: [Output; 2],
    /// The path of the bundle.
    pub out: String,
}

/// What `prove-withdraw` is to prove, and where the bundle goes.
#[derive(Debug)]
pub struct WithdrawOrder {
    /// The note to exit.
    pub spend: Spend,
    /// The contract's binding of the payout address.
    pub recipient_binding: Fr,
    /// The path of the bundle.
    pub out: String,
}

/// The parts of a transfer order.
pub struct TransferParts {
    pub spends: (SpendParts, SpendParts),
    pub outputs: (OutputParts, OutputParts),
    pub out: Seq<char>,
}

/// The parts of a withdraw order.
pub struct WithdrawParts {
    pub spend: SpendParts,
    pub recipient_binding: nat,
    pub out: Seq<char>,
}

impl TransferOrder {
    /// The parts of this order.
    pub open spec fn parts(self) -> TransferParts {
        TransferParts {
            spends: (self.spends[0].parts(), self.spends[1].parts()),
            outputs: (self.outputs[0].parts(), self.outputs[1].parts()),
            out: self.out@,
        }
    }
}

impl WithdrawOrder {
    /// The parts of this order.
    pub open spec fn parts(self) -> WithdrawParts {
        WithdrawParts {
            spend: self.spend.parts(),
            recipient_binding: self.recipient_binding.value(),
            out: self.out@,
        }
    }
}

/// The transfer that flags order, or what is wrong with them.
pub open spec fn ordered_transfer(flags: Map<Seq<char>, Seq<Seq<char>>>) -> Result<
    TransferParts,
    Seq<char>,
> {
    match two_of::<Spend>(flags, "spend"@) {
        Err(e) => Err(e),
        Ok(spends) => match two_of::<Output>(flags, "output"@) {
            Err(e) => Err(e),
            Ok(outputs) => match one_of(flags, "out"@) {
                Err(e) => Err(e),
                Ok(out) => Ok(TransferParts { spends, outputs, out }),
            },
        },
    }
}

/// Reads the flags of `prove-transfer` that say what to prove.
pub fn transfer_order(flags: &Flags) -> (order: Result<TransferOrder, String>)
    ensures
        match order {
            Ok(o) => ordered_transfer(flags@) == Ok::<TransferParts, Seq<char>>(o.parts()),
            Err(e) => ordered_transfer(flags@) == Err::<TransferParts, Seq<char>>(e@),
        },
{
    let spends: [Spend; 2] = match two(flags, "spend") {
        Ok(spends) => spends,
        Err(e) => {
            return Err(e);
        },
    };
    let outputs: [Output; 2] = match two(flags, "output") {
        Ok(outputs) => outputs,
        Err(e) => {
            return Err(e);
        },
    };
    match one(flags, "out") {
        Ok(out) => Ok(TransferOrder { spends, outputs, out: out.to_owned() }),
        Err(e) => Err(e),
    }
}

/// The withdrawal that flags order, or what is wrong with them.
pub open spec fn ordered_withdraw(flags: Map<Seq<char>, Seq<Seq<char>>>) -> Result<
    WithdrawParts,
    Seq<char>,
> {
    match one_of(flags, "spend"@) {
        Err(e) => Err(e),
        Ok(text) => match Spend::parsed(text) {
            Err(e) => Err(e),
            Ok(spend) => match one_of(flags, "recipient-binding"@) {
                Err(e) => Err(e),
                Ok(text) => match parsed_fr(text) {
                    Err(e) => Err(e),
                    Ok(recipient_binding) => match one_of(flags, "out"@) {
                        Err(e) => Err(e),
                        Ok(out) => Ok(WithdrawParts { spend, recipient_binding, out }),
                    },
                },
            },
        },
    }
}

/// Reads the flags of `prove-withdraw` that say what to prove.
pub fn withdraw_order(flags: &Flags) -> (order: Result<WithdrawOrder, String>)
    ensures
        match order {
            Ok(o) => ordered_withdraw(flags@) == Ok::<WithdrawParts, Seq<char>>(o.parts()),
            Err(e) => ordered_withdraw(flags@) == Err::<WithdrawParts, Seq<char>>(e@),
        },
{
    let text: &str = match one(flags, "spend") {
        Ok(text) => text,
        Err(e) => {
            return Err(e);
        },
    };
    let spend: Spend = match Spend::try_parse(text) {
        Ok(spend) => spend,
        Err(e) => {
            return Err(e);
        },
    };
    let text: &str = match one(flags, "recipient-binding") {
        Ok(text) => text,
        Err(e) => {
            return Err(e);
        },
    };
    let recipient_binding: Fr = match parse_fr(text) {
        Ok(x) => x,
        Err(e) => {
            return Err(e);
        },
    };
    match one(flags, "out") {
        Ok(out) => Ok(WithdrawOrder { spend, recipient_binding, out: out.to_owned() }),
        Err(e) => Err(e),
    }
}

} // verus!
