//! Laws of the command line: arguments and what the commands make of them.

use crate::bytes::{be_bytes, be_nat};
use crate::cli::args::{
    hex32, one, parse_flags, parse_fr, parse_number, two, values_of, with_pairs, Flags, TryParse,
};
use crate::cli::commands::{
    cmd_keygen, cmd_note, cmd_pk, show_keys, show_note, transfer_order, withdraw_order,
    TransferOrder, WithdrawOrder,
};
use crate::field::{fr_modulus, Fr};
use crate::hex_codec::{decode, hex_encoded, hex_fault_name, quoted, HexFault};
use crate::laws::texts::{
    all_digits, joined, lacks, lemma_numbers, lemma_pieces, lemma_unjoined, spelled_by, unsigned,
};
use crate::note::Note;
use crate::poseidon::hash2_spec;
use crate::prover::{Output, Spend};
use crate::text::{decimal, int_fault_name, parse_int, split_of, strings, IntFault};
use vstd::prelude::*;

verus! {

/// The argument at an even place is a flag: two dashes and its key.
pub open spec fn is_flag(arg: Seq<char>) -> bool {
    arg.len() >= 2 && arg[0] == '-' && arg[1] == '-'
}

/// What the first pairs of arguments give a key, in the order they were given.
pub open spec fn given(args: Seq<Seq<char>>, pairs: nat, key: Seq<char>) -> Seq<Seq<char>>
    decreases pairs,
{
    if pairs == 0 {
        Seq::empty()
    } else {
        let before = given(args, (pairs - 1) as nat, key);
        if args[2 * pairs - 2] == "--"@ + key {
            before.push(args[2 * pairs - 1])
        } else {
            before
        }
    }
}

proof fn lemma_dashes(arg: Seq<char>)
    ensures
        "--"@.len() == 2,
        "--"@.is_prefix_of(arg) <==> is_flag(arg),
        is_flag(arg) ==> forall|key: Seq<char>| #[trigger] ("--"@ + key) == arg <==> key == arg.skip(
            2,
        ),
{
    reveal_strlit("--");
    if "--"@.is_prefix_of(arg) {
        assert(arg[0] == arg.subrange(0, 2)[0] && arg[1] == arg.subrange(0, 2)[1]);
    }
    if is_flag(arg) {
        assert("--"@ =~= arg.subrange(0, 2));
        assert forall|key: Seq<char>| #[trigger] ("--"@ + key) == arg <==> key == arg.skip(2) by {
            assert(("--"@ + key).skip(2) =~= key);
            assert(arg =~= "--"@ + arg.skip(2));
        }
    }
}

proof fn lemma_pairs(args: Seq<Seq<char>>, n: nat)
    requires
        n <= (args.len() + 1) / 2,
    ensures
        with_pairs(args, n) is Ok <==> 2 * n <= args.len() && forall|i: int|
            0 <= i < n ==> is_flag(#[trigger] args[2 * i]),
        with_pairs(args, n) matches Ok(flags) ==> forall|key: Seq<char>|
            #![trigger values_of(flags, key)]
            values_of(flags, key) == given(args, n, key) && (flags.dom().contains(key) <==> given(
                args,
                n,
                key,
            ).len() > 0),
        with_pairs(args, n) matches Err(e) ==> exists|k: int|
            {
                &&& 0 <= k < n
                &&& forall|i: int| 0 <= i < k ==> is_flag(#[trigger] args[2 * i])
                &&& if is_flag(#[trigger] args[2 * k]) {
                    2 * k + 1 >= args.len() && e == "--"@ + args[2 * k].skip(2) + " needs a value"@
                } else {
                    e == "expected --flag, got "@ + args[2 * k]
                }
            },
    decreases n,
{
    if n > 0 {
        let m = (n - 1) as nat;
        lemma_pairs(args, m);
        let flag = args[2 * m as int];
        lemma_dashes(flag);
        match with_pairs(args, m) {
            Err(e) => {},
            Ok(flags) => {
                if is_flag(flag) && 2 * n - 1 < args.len() {
                    let name = flag.skip(2);
                    let more = flags.insert(name, values_of(flags, name).push(args[2 * n - 1]));
                    assert forall|key: Seq<char>|
                        #![trigger values_of(more, key)]
                        values_of(more, key) == given(args, n, key) && (more.dom().contains(key)
                            <==> given(args, n, key).len() > 0) by {
                        assert(values_of(flags, key) == given(args, m, key));
                        assert(("--"@ + key) == flag <==> key == name);
                    }
                } else {
                    assert(args[2 * m as int] == flag);
                }
            },
        }
    } else {
        assert forall|key: Seq<char>|
            #![trigger values_of(Map::<Seq<char>, Seq<Seq<char>>>::empty(), key)]
            values_of(Map::<Seq<char>, Seq<Seq<char>>>::empty(), key) =~= given(args, 0, key) by {
        }
    }
}

/// **Flags.** Arguments are flags if and only if they come in pairs whose first
/// is a key behind two dashes. Each key then has the values that were given it,
/// in their order, and no key has any other. The first argument that is wrong
/// is what is told.
pub proof fn lemma_flags(args: &[String], parsed: Result<Flags, String>)
    requires
        call_ensures(parse_flags, (args,), parsed),
    ensures
        parsed is Ok <==> args@.len() % 2 == 0 && forall|i: int|
            0 <= i < args@.len() / 2 ==> is_flag((#[trigger] strings(args@)[2 * i])),
        parsed matches Ok(flags) ==> forall|key: Seq<char>|
            #![trigger flags@.dom().contains(key)]
            (flags@.dom().contains(key) <==> given(
                strings(args@),
                (args@.len() / 2) as nat,
                key,
            ).len() > 0) && (flags@.dom().contains(key) ==> flags@[key] == given(
                strings(args@),
                (args@.len() / 2) as nat,
                key,
            )),
        parsed matches Err(e) ==> exists|k: int|
            {
                &&& 0 <= k < (args@.len() + 1) / 2
                &&& forall|i: int| 0 <= i < k ==> is_flag(#[trigger] strings(args@)[2 * i])
                &&& if is_flag(#[trigger] strings(args@)[2 * k]) {
                    2 * k + 1 >= args@.len() && e@ == "--"@ + strings(args@)[2 * k].skip(2)
                        + " needs a value"@
                } else {
                    e@ == "expected --flag, got "@ + strings(args@)[2 * k]
                }
            },
{
    let all = strings(args@);
    let n = (all.len() + 1) / 2;
    lemma_pairs(all, n);
    if let Ok(flags) = parsed {
        assert(with_pairs(all, n) == Ok::<Map<Seq<char>, Seq<Seq<char>>>, Seq<char>>(flags@));
        let found = with_pairs(all, n)->Ok_0;
        assert(n == all.len() / 2);
        assert forall|key: Seq<char>|
            #![trigger flags@.dom().contains(key)]
            (flags@.dom().contains(key) <==> given(all, n, key).len() > 0) && (
            flags@.dom().contains(key) ==> flags@[key] == given(all, n, key)) by {
            assert(found == flags@);
            assert(values_of(found, key) == given(all, n, key));
        }
    } else {
        assert(with_pairs(all, n) is Err);
        if all.len() % 2 == 0 {
            assert(2 * n <= all.len());
        }
    }
}

/// **A flag's values** are those that it was given; **the one value** of a flag
/// is there if it was given once, and it is told whether it was not given or
/// given more than once.
pub proof fn lemma_one(
    flags: &Flags,
    key: &str,
    values: Option<&Vec<String>>,
    value: Result<&str, String>,
)
    requires
        call_ensures(Flags::values, (flags, key), values),
        call_ensures(one, (flags, key), value),
    ensures
        values is Some <==> flags@.dom().contains(key@),
        values matches Some(list) ==> strings(list@) == flags@[key@],
        value is Ok <==> flags@.dom().contains(key@) && flags@[key@].len() == 1,
        value matches Ok(v) ==> v@ == flags@[key@][0],
        value matches Err(e) ==> {
            &&& !flags@.dom().contains(key@) ==> e@ == "missing --"@ + key@
            &&& flags@.dom().contains(key@) ==> e@ == "--"@ + key@ + " given more than once"@
        },
{
}

/// **Faults are told in words.**
pub proof fn lemma_faults_told(
    hex: &HexFault,
    hex_text: Vec<char>,
    number: IntFault,
    number_text: &'static str,
)
    requires
        call_ensures(hex_fault_name, (hex,), hex_text),
        call_ensures(int_fault_name, (number,), number_text),
    ensures
        *hex == HexFault::OddLength ==> hex_text@ == "Odd number of digits"@,
        *hex == HexFault::InvalidStringLength ==> hex_text@ == "Invalid string length"@,
        hex matches HexFault::InvalidHexCharacter { c, index } ==> hex_text@
            == "Invalid character "@ + quoted(*c) + " at position "@ + decimal(*index as nat),
        number == IntFault::Empty ==> number_text@ == "cannot parse integer from empty string"@,
        number == IntFault::InvalidDigit ==> number_text@ == "invalid digit found in string"@,
        number == IntFault::PosOverflow ==> number_text@
            == "number too large to fit in target type"@,
{
}

/// **Field elements.** A text is a field element if and only if it is
/// hexadecimal, of 32 bytes, and canonical, checked in this order; it is the
/// one that the bytes spell.
pub proof fn lemma_field_elements(
    text: &str,
    decoded: Result<Vec<u8>, HexFault>,
    fault: HexFault,
    fault_text: Vec<char>,
    parsed: Result<Fr, String>,
)
    requires
        call_ensures(decode, (text,), decoded),
        decoded matches Err(e) ==> fault == e,
        call_ensures(hex_fault_name, (&fault,), fault_text),
        call_ensures(parse_fr, (text,), parsed),
    ensures
        decoded is Err ==> (parsed matches Err(e) && e@ == "bad hex: "@ + fault_text@),
        decoded matches Ok(bytes) ==> {
            if bytes@.len() != 32 {
                parsed matches Err(e) && e@ == "expected 32 bytes"@
            } else if be_nat(bytes@) >= fr_modulus() {
                parsed matches Err(e) && e@ == "not a canonical field element (≥ group order)"@
            } else {
                parsed matches Ok(x) && x.value() == be_nat(bytes@)
            }
        },
{
}

/// **Field elements are read back.** A canonical field element is written as 64
/// hexadecimal digits, which are read as the same element.
pub proof fn lemma_field_element_read_back(x: Fr, text: String, read: Result<Fr, String>, s: &str)
    requires
        x.value() < fr_modulus(),
        call_ensures(hex32, (x,), text),
        s@ == text@,
        call_ensures(parse_fr, (s,), read),
    ensures
        text@ == hex_encoded(be_bytes(x.value(), 32)),
        text@.len() == 64,
        read matches Ok(y) && y.value() == x.value(),
{
    crate::cli::args::lemma_hex32_roundtrip(x.value());
    crate::bytes::lemma_pow256_sizes();
    crate::bytes::lemma_be_bytes(x.value(), 32);
}

/// **Numbers of the command line** are decimal and fit 64 bits; a fault is told
/// under the number's name.
pub proof fn lemma_command_numbers(
    name: &str,
    s: &Vec<char>,
    read: Result<u64, IntFault>,
    fault: IntFault,
    fault_text: &'static str,
    parsed: Result<u64, String>,
)
    requires
        call_ensures(parse_int, (s, u64::MAX), read),
        read matches Err(e) ==> fault == e,
        call_ensures(int_fault_name, (fault,), fault_text),
        call_ensures(parse_number, (name, s), parsed),
    ensures
        parsed is Ok <==> s@.len() > 0 && all_digits(unsigned(s@)) && spelled_by(unsigned(s@))
            <= u64::MAX,
        parsed matches Ok(n) ==> n == spelled_by(unsigned(s@)),
        parsed matches Err(e) ==> e@ == name@ + ": "@ + fault_text@,
{
    lemma_numbers(s, u64::MAX, read);
}

/// The text is some pieces with a colon between any two, and no piece has one.
pub open spec fn has_pieces(s: Seq<char>, pieces: Seq<Seq<char>>) -> bool {
    &&& joined(pieces, ':') == s
    &&& forall|i: int| 0 <= i < pieces.len() ==> lacks(#[trigger] pieces[i], ':')
}

proof fn lemma_has_pieces(s: Seq<char>, pieces: Seq<Seq<char>>)
    requires
        pieces.len() > 0,
    ensures
        has_pieces(s, pieces) <==> split_of(s, ':') == pieces,
{
    lemma_pieces(s, ':');
    if has_pieces(s, pieces) {
        lemma_unjoined(pieces, ':');
    }
}

/// **Spends on the command line** are a key, a value, a blinding and a leaf
/// index, in this order, with a colon between any two. The first of them that
/// is wrong is what is told.
pub proof fn lemma_spend_parsed(
    s: &str,
    a: &str,
    b: &Vec<char>,
    c: &str,
    d: &Vec<char>,
    sk: Result<Fr, String>,
    value: Result<u64, String>,
    blinding: Result<Fr, String>,
    leaf_index: Result<u64, String>,
    parsed: Result<Spend, String>,
)
    requires
        call_ensures(<Spend as TryParse>::try_parse, (s,), parsed),
        call_ensures(parse_fr, (a,), sk),
        call_ensures(parse_number, ("spend value", b), value),
        call_ensures(parse_fr, (c,), blinding),
        call_ensures(parse_number, ("spend leaf index", d), leaf_index),
    ensures
        (forall|pieces: Seq<Seq<char>>|
            pieces.len() == 4 ==> !#[trigger] has_pieces(s@, pieces)) ==> (parsed matches Err(e)
            && e@ == "--spend wants sk:value:blinding:leaf_index, got "@ + s@),
        has_pieces(s@, seq![a@, b@, c@, d@]) ==> match (sk, value, blinding, leaf_index) {
            (Err(e), _, _, _) => parsed matches Err(f) && f@ == e@,
            (_, Err(e), _, _) => parsed matches Err(f) && f@ == e@,
            (_, _, Err(e), _) => parsed matches Err(f) && f@ == e@,
            (_, _, _, Err(e)) => parsed matches Err(f) && f@ == e@,
            (Ok(sk), Ok(value), Ok(blinding), Ok(leaf_index)) => {
                &&& parsed matches Ok(spend)
                &&& spend.sk.value() == sk.value()
                &&& spend.value == value
                &&& spend.blinding.value() == blinding.value()
                &&& spend.leaf_index == leaf_index
            },
        },
{
    let pieces = split_of(s@, ':');
    lemma_pieces(s@, ':');
    lemma_has_pieces(s@, pieces);
    lemma_has_pieces(s@, seq![a@, b@, c@, d@]);
    assert(seq![a@, b@, c@, d@][0] == a@);
    assert(seq![a@, b@, c@, d@][1] == b@);
    assert(seq![a@, b@, c@, d@][2] == c@);
    assert(seq![a@, b@, c@, d@][3] == d@);
}

/// **Outputs on the command line** are an owner, a value and a blinding, in
/// this order, with a colon between any two. The first of them that is wrong is
/// what is told.
pub proof fn lemma_output_parsed(
    s: &str,
    a: &str,
    b: &Vec<char>,
    c: &str,
    owner_pk: Result<Fr, String>,
    value: Result<u64, String>,
    blinding: Result<Fr, String>,
    parsed: Result<Output, String>,
)
    requires
        call_ensures(<Output as TryParse>::try_parse, (s,), parsed),
        call_ensures(parse_fr, (a,), owner_pk),
        call_ensures(parse_number, ("output value", b), value),
        call_ensures(parse_fr, (c,), blinding),
    ensures
        (forall|pieces: Seq<Seq<char>>|
            pieces.len() == 3 ==> !#[trigger] has_pieces(s@, pieces)) ==> (parsed matches Err(e)
            && e@ == "--output wants owner_pk:value:blinding, got "@ + s@),
        has_pieces(s@, seq![a@, b@, c@]) ==> match (owner_pk, value, blinding) {
            (Err(e), _, _) => parsed matches Err(f) && f@ == e@,
            (_, Err(e), _) => parsed matches Err(f) && f@ == e@,
            (_, _, Err(e)) => parsed matches Err(f) && f@ == e@,
            (Ok(owner_pk), Ok(value), Ok(blinding)) => {
                &&& parsed matches Ok(output)
                &&& output.owner_pk.value() == owner_pk.value()
                &&& output.value == value
                &&& output.blinding.value() == blinding.value()
            },
        },
{
    let pieces = split_of(s@, ':');
    lemma_pieces(s@, ':');
    lemma_has_pieces(s@, pieces);
    lemma_has_pieces(s@, seq![a@, b@, c@]);
    assert(seq![a@, b@, c@][0] == a@);
    assert(seq![a@, b@, c@][1] == b@);
    assert(seq![a@, b@, c@][2] == c@);
}

/// **Flags that are given twice** give what each of their two values gives, in
/// order; the first fault is told, and any other number of values is one.
pub proof fn lemma_two<T: TryParse>(
    flags: &Flags,
    key: &str,
    a: &str,
    b: &str,
    first: Result<T, String>,
    second: Result<T, String>,
    parsed: Result<[T; 2], String>,
)
    requires
        call_ensures(two::<T>, (flags, key), parsed),
        call_ensures(<T as TryParse>::try_parse, (a,), first),
        call_ensures(<T as TryParse>::try_parse, (b,), second),
    ensures
        !flags@.dom().contains(key@) || flags@[key@].len() != 2 ==> (parsed matches Err(e) && e@
            == "--"@ + key@ + " must be given exactly twice"@),
        flags@.dom().contains(key@) && flags@[key@] == seq![a@, b@] ==> match (first, second) {
            (Err(e), _) => parsed matches Err(f) && f@ == e@,
            (_, Err(e)) => parsed matches Err(f) && f@ == e@,
            (Ok(x), Ok(y)) => parsed matches Ok(pair) && pair[0].parts() == x.parts()
                && pair[1].parts() == y.parts(),
        },
{
    assert(seq![a@, b@][0] == a@);
    assert(seq![a@, b@][1] == b@);
}

/// A line that shows a field element: its name, and its 64 digits.
pub open spec fn shows(line: Seq<char>, name: Seq<char>, x: nat) -> bool {
    line == name + "="@ + hex_encoded(be_bytes(x, 32))
}

/// **Keys are shown** with the public key that belongs to the spending key, and
/// a fresh pair is such a pair.
pub proof fn lemma_keys_shown(sk: Fr, printed: Vec<String>, fresh: Vec<String>)
    requires
        call_ensures(show_keys, (sk,), printed),
        call_ensures(cmd_keygen, (), fresh),
    ensures
        printed@.len() == 2,
        shows(printed@[0]@, "sk"@, sk.value()),
        shows(printed@[1]@, "pk"@, hash2_spec(1, sk.value())),
        fresh@.len() == 2,
        exists|other: Fr|
            #![trigger other.value()]
            shows(fresh@[0]@, "sk"@, other.value()) && shows(
                fresh@[1]@,
                "pk"@,
                hash2_spec(1, other.value()),
            ),
{
    let lines = strings(printed@);
    assert(lines.len() == 2);
    assert(lines[0] == printed@[0]@ && lines[1] == printed@[1]@);
    let other = choose|other: Fr|
        strings(fresh@) == #[trigger] crate::cli::commands::key_lines(other.value());
    let lines = strings(fresh@);
    assert(lines.len() == 2);
    assert(lines[0] == fresh@[0]@ && lines[1] == fresh@[1]@);
    assert(shows(fresh@[0]@, "sk"@, other.value()));
}

/// **Notes are shown** with their value, owner, blinding and commitment.
pub proof fn lemma_note_shown(note: &Note, printed: Vec<String>)
    requires
        call_ensures(show_note, (note,), printed),
    ensures
        shows_note(printed@, note.value, note.owner_pk.value(), note.blinding.value()),
{
    lemma_shows_note(printed@, note.value, note.owner_pk.value(), note.blinding.value());
}

/// What is printed of a note.
pub open spec fn shows_note(printed: Seq<String>, value: u64, owner_pk: nat, blinding: nat) -> bool {
    &&& printed.len() == 4
    &&& printed[0]@ == "value="@ + decimal(value as nat)
    &&& shows(printed[1]@, "owner_pk"@, owner_pk)
    &&& shows(printed[2]@, "blinding"@, blinding)
    &&& shows(
        printed[3]@,
        "commitment"@,
        hash2_spec(hash2_spec(value as nat, owner_pk), blinding),
    )
}

proof fn lemma_shows_note(printed: Seq<String>, value: u64, owner_pk: nat, blinding: nat)
    requires
        strings(printed) == crate::cli::commands::note_lines(value as nat, owner_pk, blinding),
    ensures
        shows_note(printed, value, owner_pk, blinding),
{
    let lines = strings(printed);
    assert(lines.len() == 4);
    assert(lines[0] == printed[0]@ && lines[1] == printed[1]@);
    assert(lines[2] == printed[2]@ && lines[3] == printed[3]@);
    reveal_strlit("value");
    reveal_strlit("=");
    reveal_strlit("value=");
    assert("value="@ =~= "value"@ + "="@);
    assert(printed[0]@ =~= "value="@ + decimal(value as nat));
}

/// **`pk`** shows the public key of the one spending key that is given; the
/// first fault of its arguments is told.
pub proof fn lemma_pk_command(
    args: &[String],
    flags: Result<Flags, String>,
    text: Result<&str, String>,
    sk: Result<Fr, String>,
    output: Result<Vec<String>, String>,
)
    requires
        call_ensures(cmd_pk, (args,), output),
        call_ensures(parse_flags, (args,), flags),
        flags matches Ok(f) ==> call_ensures(one, (&f, "sk"), text),
        flags is Ok && text is Ok ==> call_ensures(parse_fr, (text->Ok_0,), sk),
    ensures
        match (flags, text, sk) {
            (Err(e), _, _) => output matches Err(f) && f@ == e@,
            (_, Err(e), _) => output matches Err(f) && f@ == e@,
            (_, _, Err(e)) => output matches Err(f) && f@ == e@,
            (Ok(_), Ok(_), Ok(sk)) => {
                &&& output matches Ok(printed)
                &&& printed@.len() == 1
                &&& shows(printed@[0]@, "pk"@, hash2_spec(1, sk.value()))
            },
        },
{
    if let Ok(printed) = output {
        let lines = strings(printed@);
        assert(lines.len() == 1);
        assert(lines[0] == printed@[0]@);
    }
}

/// **`note`** shows the note with the value and the owner that are given, and
/// with the blinding that is given, if one is; the first fault of its arguments
/// is told.
#[verifier::rlimit(40)]
pub proof fn lemma_note_command(
    args: &[String],
    flags: Result<Flags, String>,
    value_text: Result<&str, String>,
    value_chars: &Vec<char>,
    value: Result<u64, String>,
    owner_text: Result<&str, String>,
    owner: Result<Fr, String>,
    blinding_text: Result<&str, String>,
    blinding: Result<Fr, String>,
    output: Result<Vec<String>, String>,
)
    requires
        call_ensures(cmd_note, (args,), output),
        call_ensures(parse_flags, (args,), flags),
        flags matches Ok(f) ==> call_ensures(one, (&f, "value"), value_text),
        flags is Ok && value_text is Ok ==> value_chars@ == (value_text->Ok_0)@,
        call_ensures(parse_number, ("--value", value_chars), value),
        flags matches Ok(f) ==> call_ensures(one, (&f, "owner-pk"), owner_text),
        flags is Ok && owner_text is Ok ==> call_ensures(parse_fr, (owner_text->Ok_0,), owner),
        flags matches Ok(f) ==> call_ensures(one, (&f, "blinding"), blinding_text),
        flags is Ok && blinding_text is Ok ==> call_ensures(
            parse_fr,
            (blinding_text->Ok_0,),
            blinding,
        ),
    ensures
        match (flags, value_text, value, owner_text, owner) {
            (Err(e), _, _, _, _) => output matches Err(f) && f@ == e@,
            (_, Err(e), _, _, _) => output matches Err(f) && f@ == e@,
            (_, _, Err(e), _, _) => output matches Err(f) && f@ == e@,
            (_, _, _, Err(e), _) => output matches Err(f) && f@ == e@,
            (_, _, _, _, Err(e)) => output matches Err(f) && f@ == e@,
            (Ok(f), Ok(_), Ok(value), Ok(_), Ok(owner)) => if !f@.dom().contains("blinding"@) {
                output matches Ok(printed) && exists|b: Fr|
                    shows_note(printed@, value, owner.value(), #[trigger] b.value())
            } else {
                match (blinding_text, blinding) {
                    (Err(e), _) => output matches Err(f) && f@ == e@,
                    (_, Err(e)) => output matches Err(f) && f@ == e@,
                    (Ok(_), Ok(b)) => output matches Ok(printed) && shows_note(
                        printed@,
                        value,
                        owner.value(),
                        b.value(),
                    ),
                }
            },
        },
{
    if let Ok(printed) = output {
        let parts = crate::cli::commands::note_request(strings(args@))->Ok_0;
        let (v, o) = (value->Ok_0, owner->Ok_0);
        if parts.blinding is None {
            let b = choose|b: Fr|
                #![trigger b.value()]
                strings(printed@) == crate::cli::commands::note_lines(
                    parts.value,
                    parts.owner_pk,
                    b.value(),
                );
            lemma_shows_note(printed@, v, o.value(), b.value());
        } else {
            lemma_shows_note(printed@, v, o.value(), parts.blinding->0);
        }
    }
}

/// **`prove-transfer`** takes two spends, two outputs and the path of the
/// bundle; the first fault is told.
#[verifier::rlimit(40)]
pub proof fn lemma_transfer_ordered(
    flags: &Flags,
    spends: Result<[Spend; 2], String>,
    outputs: Result<[Output; 2], String>,
    out: Result<&str, String>,
    order: Result<TransferOrder, String>,
)
    requires
        call_ensures(transfer_order, (flags,), order),
        call_ensures(two::<Spend>, (flags, "spend"), spends),
        call_ensures(two::<Output>, (flags, "output"), outputs),
        call_ensures(one, (flags, "out"), out),
    ensures
        match (spends, outputs, out) {
            (Err(e), _, _) => order matches Err(f) && f@ == e@,
            (_, Err(e), _) => order matches Err(f) && f@ == e@,
            (_, _, Err(e)) => order matches Err(f) && f@ == e@,
            (Ok(spends), Ok(outputs), Ok(out)) => {
                &&& order matches Ok(o)
                &&& same_spend(o.spends[0], spends[0])
                &&& same_spend(o.spends[1], spends[1])
                &&& same_output(o.outputs[0], outputs[0])
                &&& same_output(o.outputs[1], outputs[1])
                &&& o.out@ == out@
            },
        },
{
}

/// The spends have the same fields.
pub open spec fn same_spend(a: Spend, b: Spend) -> bool {
    &&& a.sk.value() == b.sk.value()
    &&& a.value == b.value
    &&& a.blinding.value() == b.blinding.value()
    &&& a.leaf_index == b.leaf_index
}

/// The outputs have the same fields.
pub open spec fn same_output(a: Output, b: Output) -> bool {
    &&& a.owner_pk.value() == b.owner_pk.value()
    &&& a.value == b.value
    &&& a.blinding.value() == b.blinding.value()
}

/// **`prove-withdraw`** takes one spend, the recipient's binding and the path
/// of the bundle; the first fault is told.
#[verifier::rlimit(40)]
pub proof fn lemma_withdrawal_ordered(
    flags: &Flags,
    spend_text: Result<&str, String>,
    spend: Result<Spend, String>,
    binding_text: Result<&str, String>,
    binding: Result<Fr, String>,
    out: Result<&str, String>,
    order: Result<WithdrawOrder, String>,
)
    requires
        call_ensures(withdraw_order, (flags,), order),
        call_ensures(one, (flags, "spend"), spend_text),
        spend_text is Ok ==> call_ensures(
            <Spend as TryParse>::try_parse,
            (spend_text->Ok_0,),
            spend,
        ),
        call_ensures(one, (flags, "recipient-binding"), binding_text),
        binding_text is Ok ==> call_ensures(parse_fr, (binding_text->Ok_0,), binding),
        call_ensures(one, (flags, "out"), out),
    ensures
        match (spend_text, spend, binding_text, binding, out) {
            (Err(e), _, _, _, _) => order matches Err(f) && f@ == e@,
            (_, Err(e), _, _, _) => order matches Err(f) && f@ == e@,
            (_, _, Err(e), _, _) => order matches Err(f) && f@ == e@,
            (_, _, _, Err(e), _) => order matches Err(f) && f@ == e@,
            (_, _, _, _, Err(e)) => order matches Err(f) && f@ == e@,
            (Ok(_), Ok(spend), Ok(_), Ok(binding), Ok(out)) => {
                &&& order matches Ok(o)
                &&& same_spend(o.spend, spend)
                &&& o.recipient_binding.value() == binding.value()
                &&& o.out@ == out@
            },
        },
{
}

} // verus!
