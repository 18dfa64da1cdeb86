//! Command-line arguments: flags, and the values they carry.

use crate::bytes::be_nat;
use crate::encoding::{fr_encoding, fr_from_bytes, fr_to_bytes};
use crate::field::Fr;
use crate::hex_codec::{decode, encode, hex_decoded, hex_encoded, hex_fault_name, hex_fault_text};
use crate::interfaces::fr::{canonical_scalar, is_canonical};
use crate::prover::{Output, Spend};
use crate::store::Store;
use crate::text::{
    append_str, chars_of, has_prefix, int_fault_name, int_fault_text, labelled,
    message, parse_int, parsed_int, slice, split, split_of, string_of, strings, texts,
};
use vstd::prelude::*;
use vstd::utf8::encode_utf8;

verus! {

/// The flags of a command, each with its values in the order they were given.
#[derive(Debug)]
pub struct Flags {
    given: Store<String, Vec<String>>,
}

impl View for Flags {
    type V = Map<Seq<char>, Seq<Seq<char>>>;

    closed spec fn view(&self) -> Map<Seq<char>, Seq<Seq<char>>> {
        values_by_key(self.given)
    }
}

impl Flags {
    #[verifier::type_invariant]
    spec fn keys_distinct(self) -> bool {
        self.given.wf()
    }
}

spec fn values_by_key(given: Store<String, Vec<String>>) -> Map<Seq<char>, Seq<Seq<char>>> {
    given.map().map_values(|values: Vec<String>| strings(values@))
}

/// The values that a key has.
pub open spec fn values_of(flags: Map<Seq<char>, Seq<Seq<char>>>, key: Seq<char>) -> Seq<
    Seq<char>,
> {
    if flags.dom().contains(key) {
        flags[key]
    } else {
        Seq::empty()
    }
}

/// What the first `n` pairs of arguments give, or what is wrong with the first
/// bad one.
pub open spec fn with_pairs(args: Seq<Seq<char>>, n: nat) -> Result<
    Map<Seq<char>, Seq<Seq<char>>>,
    Seq<char>,
>
    decreases n,
{
    if n == 0 {
        Ok(Map::empty())
    } else {
        match with_pairs(args, (n - 1) as nat) {
            Err(e) => Err(e),
            Ok(flags) => {
                let flag = args[2 * (n - 1)];
                let key = flag.skip(2);
                if !"--"@.is_prefix_of(flag) {
                    Err("expected --flag, got "@ + flag)
                } else if 2 * n - 1 >= args.len() {
                    Err("--"@ + key + " needs a value"@)
                } else {
                    Ok(flags.insert(key, values_of(flags, key).push(args[2 * n - 1])))
                }
            },
        }
    }
}

/// The flags that arguments give, or what is wrong with them.
pub open spec fn parsed_flags(args: Seq<Seq<char>>) -> Result<
    Map<Seq<char>, Seq<Seq<char>>>,
    Seq<char>,
> {
    with_pairs(args, (args.len() + 1) / 2)
}

proof fn lemma_pair_fault_stays(args: Seq<Seq<char>>, m: nat, n: nat)
    requires
        m <= n,
        with_pairs(args, m) is Err,
    ensures
        with_pairs(args, n) == with_pairs(args, m),
    decreases n,
{
    if m < n {
        lemma_pair_fault_stays(args, m, (n - 1) as nat);
    }
}

/// Copies of strings.
fn copied(list: &Vec<String>) -> (copy: Vec<String>)
    ensures
        strings(copy@) == strings(list@),
{
    let mut copy: Vec<String> = Vec::new();
    let mut i: usize = 0;
    while i < list.len()
        invariant
            i <= list@.len(),
            copy@.len() == i,
            forall|k: int| 0 <= k < i ==> (#[trigger] copy@[k])@ == list@[k]@,
        decreases list@.len() - i,
    {
        copy.push(list[i].clone());
        i = i + 1;
    }
    proof {
        assert(strings(copy@) =~= strings(list@));
    }
    copy
}

/// Gives a key one more value.
fn add_value(given: &mut Store<String, Vec<String>>, key: String, value: String)
    requires
        old(given).wf(),
    ensures
        final(given).wf(),
        values_by_key(*final(given)) == values_by_key(*old(given)).insert(
            key@,
            values_of(values_by_key(*old(given)), key@).push(value@),
        ),
{
    let mut values: Vec<String> = match given.get(&key) {
        Some(had) => copied(had),
        None => Vec::new(),
    };
    let ghost had = strings(values@);
    proof {
        assert(had =~= values_of(values_by_key(*given), key@));
    }
    values.push(value);
    proof {
        assert(strings(values@) =~= had.push(value@));
    }
    given.set(key, values);
    proof {
        assert(values_by_key(*given) =~= values_by_key(*old(given)).insert(
            key@,
            had.push(value@),
        ));
    }
}

/// Parses `--key value` pairs; repeatable keys accumulate in order.
pub fn parse_flags(args: &[String]) -> (parsed: Result<Flags, String>)
    ensures
        match parsed {
            Ok(flags) => parsed_flags(strings(args@)) == Ok::<
                Map<Seq<char>, Seq<Seq<char>>>,
                Seq<char>,
            >(flags@),
            Err(e) => parsed_flags(strings(args@)) == Err::<
                Map<Seq<char>, Seq<Seq<char>>>,
                Seq<char>,
            >(e@),
        },
{
    let ghost all = strings(args@);
    let mut given: Store<String, Vec<String>> = Store::new();
    let prefix: Vec<char> = chars_of("--");
    proof {
        reveal_strlit("--");
        assert(values_by_key(given) =~= Map::<Seq<char>, Seq<Seq<char>>>::empty());
    }
    let mut i: usize = 0;
    let ghost mut n: nat = 0;
    while i < args.len()
        invariant
            all == strings(args@),
            prefix@ == "--"@,
            "--"@.len() == 2,
            given.wf(),
            i <= args@.len(),
            i == 2 * n,
            with_pairs(all, n) == Ok::<Map<Seq<char>, Seq<Seq<char>>>, Seq<char>>(
                values_by_key(given),
            ),
        decreases args@.len() - i,
    {
        let flag: Vec<char> = chars_of(args[i].as_str());
        proof {
            n = n + 1;
            assert(flag@ == all[2 * (n - 1)]);
        }
        if !has_prefix(&flag, &prefix) {
            proof {
                lemma_pair_fault_stays(all, n, (all.len() + 1) / 2);
            }
            return Err(labelled("expected --flag, got ", &flag));
        }
        let key: Vec<char> = slice(&flag, 2, flag.len());
        proof {
            assert(key@ =~= flag@.skip(2));
        }
        if i + 1 >= args.len() {
            proof {
                lemma_pair_fault_stays(all, n, (all.len() + 1) / 2);
            }
            return Err(message("--", &key, " needs a value"));
        }
        let ghost before = values_by_key(given);
        add_value(&mut given, string_of(&key), args[i + 1].clone());
        proof {
            assert(args@[i + 1]@ == all[2 * n - 1]);
        }
        i = i + 2;
    }
    Ok(Flags { given })
}

/// The one value of a flag, or what is wrong.
pub open spec fn one_of(flags: Map<Seq<char>, Seq<Seq<char>>>, key: Seq<char>) -> Result<
    Seq<char>,
    Seq<char>,
> {
    if !flags.dom().contains(key) {
        Err("missing --"@ + key)
    } else if flags[key].len() != 1 {
        Err("--"@ + key + " given more than once"@)
    } else {
        Ok(flags[key][0])
    }
}

impl Flags {
    /// The values of a key.
    pub fn values(&self, key: &str) -> (values: Option<&Vec<String>>)
        ensures
            match values {
                Some(v) => self@.dom().contains(key@) && self@[key@] == strings(v@),
                None => !self@.dom().contains(key@),
            },
    {
        proof {
            use_type_invariant(self);
        }
        self.given.get(&key.to_owned())
    }
}

/// The value of a flag that is given once.
pub fn one<'a>(flags: &'a Flags, key: &str) -> (value: Result<&'a str, String>)
    ensures
        match value {
            Ok(v) => one_of(flags@, key@) == Ok::<Seq<char>, Seq<char>>(v@),
            Err(e) => one_of(flags@, key@) == Err::<Seq<char>, Seq<char>>(e@),
        },
{
    match flags.values(key) {
        None => Err(labelled("missing --", &chars_of(key))),
        Some(values) => if values.len() != 1 {
            Err(message("--", &chars_of(key), " given more than once"))
        } else {
            proof {
                assert(strings(values@)[0] == values@[0]@);
            }
            Ok(values[0].as_str())
        },
    }
}

/// Whether 32 bytes are a canonical field element.
pub fn canonical(bytes: &[u8; 32]) -> (canonical: bool)
    ensures
        canonical == canonical_scalar(bytes@),
{
    is_canonical(bytes)
}

/// The field element that a text spells in hexadecimal, or what is wrong with
/// it.
pub open spec fn parsed_fr(s: Seq<char>) -> Result<nat, Seq<char>> {
    match hex_decoded(encode_utf8(s)) {
        Err(e) => Err("bad hex: "@ + hex_fault_text(e)),
        Ok(bytes) => if bytes.len() != 32 {
            Err("expected 32 bytes"@)
        } else if !canonical_scalar(bytes) {
            Err("not a canonical field element (≥ group order)"@)
        } else {
            Ok(be_nat(bytes))
        },
    }
}

/// 32 bytes as an array.
fn to_32(v: &Vec<u8>) -> (bytes: Option<[u8; 32]>)
    ensures
        match bytes {
            Some(b) => b@ == v@,
            None => v@.len() != 32,
        },
{
    if v.len() != 32 {
        return None;
    }
    let mut b: [u8; 32] = [0u8; 32];
    let mut i: usize = 0;
    while i < 32
        invariant
            i <= 32,
            v@.len() == 32,
            forall|k: int| 0 <= k < i ==> b[k] == v@[k],
        decreases 32 - i,
    {
        b[i] = v[i];
        i = i + 1;
    }
    proof {
        assert(b@ =~= v@);
    }
    Some(b)
}

/// Parses a field element: 64 hex digits, canonical.
pub fn parse_fr(hex_str: &str) -> (parsed: Result<Fr, String>)
    ensures
        match parsed {
            Ok(x) => parsed_fr(hex_str@) == Ok::<nat, Seq<char>>(x.value()),
            Err(e) => parsed_fr(hex_str@) == Err::<nat, Seq<char>>(e@),
        },
{
    let decoded: Vec<u8> = match decode(hex_str) {
        Ok(decoded) => decoded,
        Err(e) => {
            return Err(labelled("bad hex: ", &hex_fault_name(&e)));
        },
    };
    let bytes: [u8; 32] = match to_32(&decoded) {
        Some(bytes) => bytes,
        None => {
            return Err("expected 32 bytes".to_owned());
        },
    };
    if !canonical(&bytes) {
        return Err("not a canonical field element (≥ group order)".to_owned());
    }
    proof {
        vstd::arithmetic::div_mod::lemma_small_mod(
            be_nat(bytes@),
            crate::field::fr_modulus(),
        );
    }
    Ok(fr_from_bytes(&bytes))
}

/// A field element as 64 hex digits.
pub fn hex32(x: Fr) -> (s: String)
    ensures
        s@ == hex_encoded(fr_encoding(x.value())),
{
    let bytes: [u8; 32] = fr_to_bytes(x);
    encode(&bytes)
}

/// **Field elements round-trip through hex.** What [`hex32`] writes,
/// [`parse_fr`] reads back.
pub proof fn lemma_hex32_roundtrip(x: nat)
    requires
        x < crate::field::fr_modulus(),
    ensures
        parsed_fr(hex_encoded(fr_encoding(x))) == Ok::<nat, Seq<char>>(x),
{
    crate::hex_codec::lemma_hex_roundtrip(fr_encoding(x));
    crate::bytes::lemma_pow256_sizes();
    crate::bytes::lemma_be_bytes(x, 32);
}

/// A descriptor that a flag carries.
pub trait TryParse: Sized {
    /// The descriptor's fields, as plain values.
    type Parts;

    /// The fields of this descriptor.
    spec fn parts(self) -> Self::Parts;

    /// The fields that a text gives, or what is wrong with it.
    spec fn parsed(s: Seq<char>) -> Result<Self::Parts, Seq<char>>;

    /// Parses a descriptor.
    fn try_parse(s: &str) -> (parsed: Result<Self, String>)
        ensures
            match parsed {
                Ok(v) => Self::parsed(s@) == Ok::<Self::Parts, Seq<char>>(v.parts()),
                Err(e) => Self::parsed(s@) == Err::<Self::Parts, Seq<char>>(e@),
            },
    ;
}

/// The fields of a spend.
pub struct SpendParts {
    pub sk: nat,
    pub value: nat,
    pub blinding: nat,
    pub leaf_index: nat,
}

/// The fields of an output.
pub struct OutputParts {
    pub owner_pk: nat,
    pub value: nat,
    pub blinding: nat,
}

/// A 64-bit decimal number, or what is wrong with it under a name.
pub open spec fn parsed_number(name: Seq<char>, s: Seq<char>) -> Result<nat, Seq<char>> {
    match parsed_int(s, u64::MAX as nat) {
        Err(e) => Err(name + ": "@ + int_fault_text(e)),
        Ok(n) => Ok(n),
    }
}

/// Parses a 64-bit decimal number; faults are reported under a name.
pub fn parse_number(name: &str, s: &Vec<char>) -> (parsed: Result<u64, String>)
    ensures
        match parsed {
            Ok(n) => parsed_number(name@, s@) == Ok::<nat, Seq<char>>(n as nat),
            Err(e) => parsed_number(name@, s@) == Err::<nat, Seq<char>>(e@),
        },
{
    match parse_int(s, u64::MAX) {
        Ok(n) => Ok(n),
        Err(e) => {
            let mut out: Vec<char> = chars_of(name);
            append_str(&mut out, ": ");
            append_str(&mut out, int_fault_name(e));
            Err(string_of(&out))
        },
    }
}

impl TryParse for Spend {
    type Parts = SpendParts;

    open spec fn parts(self) -> SpendParts {
        SpendParts {
            sk: self.sk.value(),
            value: self.value as nat,
            blinding: self.blinding.value(),
            leaf_index: self.leaf_index as nat,
        }
    }

    open spec fn parsed(s: Seq<char>) -> Result<SpendParts, Seq<char>> {
        let parts = split_of(s, ':');
        if parts.len() != 4 {
            Err("--spend wants sk:value:blinding:leaf_index, got "@ + s)
        } else {
            match parsed_fr(parts[0]) {
                Err(e) => Err(e),
                Ok(sk) => match parsed_number("spend value"@, parts[1]) {
                    Err(e) => Err(e),
                    Ok(value) => match parsed_fr(parts[2]) {
                        Err(e) => Err(e),
                        Ok(blinding) => match parsed_number("spend leaf index"@, parts[3]) {
                            Err(e) => Err(e),
                            Ok(leaf_index) => Ok(SpendParts { sk, value, blinding, leaf_index }),
                        },
                    },
                },
            }
        }
    }

    /// `sk:value:blinding:leaf_index`, hex fields, decimal value and index.
    fn try_parse(s: &str) -> (parsed: Result<Spend, String>) {
        let text: Vec<char> = chars_of(s);
        let parts: Vec<Vec<char>> = split(&text, ':');
        if parts.len() != 4 {
            return Err(labelled("--spend wants sk:value:blinding:leaf_index, got ", &text));
        }
        proof {
            assert(texts(parts@)[0] == parts@[0]@);
            assert(texts(parts@)[1] == parts@[1]@);
            assert(texts(parts@)[2] == parts@[2]@);
            assert(texts(parts@)[3] == parts@[3]@);
        }
        let sk: Fr = match parse_fr(string_of(&parts[0]).as_str()) {
            Ok(sk) => sk,
            Err(e) => {
                return Err(e);
            },
        };
        let value: u64 = match parse_number("spend value", &parts[1]) {
            Ok(value) => value,
            Err(e) => {
                return Err(e);
            },
        };
        let blinding: Fr = match parse_fr(string_of(&parts[2]).as_str()) {
            Ok(blinding) => blinding,
            Err(e) => {
                return Err(e);
            },
        };
        let leaf_index: u64 = match parse_number("spend leaf index", &parts[3]) {
            Ok(leaf_index) => leaf_index,
            Err(e) => {
                return Err(e);
            },
        };
        Ok(Spend { sk, value, blinding, leaf_index })
    }
}

impl TryParse for Output {
    type Parts = OutputParts;

    open spec fn parts(self) -> OutputParts {
        OutputParts {
            owner_pk: self.owner_pk.value(),
            value: self.value as nat,
            blinding: self.blinding.value(),
        }
    }

    open spec fn parsed(s: Seq<char>) -> Result<OutputParts, Seq<char>> {
        let parts = split_of(s, ':');
        if parts.len() != 3 {
            Err("--output wants owner_pk:value:blinding, got "@ + s)
        } else {
            match parsed_fr(parts[0]) {
                Err(e) => Err(e),
                Ok(owner_pk) => match parsed_number("output value"@, parts[1]) {
                    Err(e) => Err(e),
                    Ok(value) => match parsed_fr(parts[2]) {
                        Err(e) => Err(e),
                        Ok(blinding) => Ok(OutputParts { owner_pk, value, blinding }),
                    },
                },
            }
        }
    }

    /// `owner_pk:value:blinding`, hex fields, decimal value.
    fn try_parse(s: &str) -> (parsed: Result<Output, String>) {
        let text: Vec<char> = chars_of(s);
        let parts: Vec<Vec<char>> = split(&text, ':');
        if parts.len() != 3 {
            return Err(labelled("--output wants owner_pk:value:blinding, got ", &text));
        }
        proof {
            assert(texts(parts@)[0] == parts@[0]@);
            assert(texts(parts@)[1] == parts@[1]@);
            assert(texts(parts@)[2] == parts@[2]@);
        }
        let owner_pk: Fr = match parse_fr(string_of(&parts[0]).as_str()) {
            Ok(owner_pk) => owner_pk,
            Err(e) => {
                return Err(e);
            },
        };
        let value: u64 = match parse_number("output value", &parts[1]) {
            Ok(value) => value,
            Err(e) => {
                return Err(e);
            },
        };
        let blinding: Fr = match parse_fr(string_of(&parts[2]).as_str()) {
            Ok(blinding) => blinding,
            Err(e) => {
                return Err(e);
            },
        };
        Ok(Output { owner_pk, value, blinding })
    }
}

/// The two descriptors of a flag, or what is wrong.
pub open spec fn two_of<T: TryParse>(
    flags: Map<Seq<char>, Seq<Seq<char>>>,
    key: Seq<char>,
) -> Result<(T::Parts, T::Parts), Seq<char>> {
    if values_of(flags, key).len() != 2 {
        Err("--"@ + key + " must be given exactly twice"@)
    } else {
        match T::parsed(flags[key][0]) {
            Err(e) => Err(e),
            Ok(a) => match T::parsed(flags[key][1]) {
                Err(e) => Err(e),
                Ok(b) => Ok((a, b)),
            },
        }
    }
}

/// Parses a flag that must appear exactly twice (the 2-in/2-out arity).
pub fn two<T: TryParse>(flags: &Flags, key: &str) -> (parsed: Result<[T; 2], String>)
    ensures
        match parsed {
            Ok(pair) => two_of::<T>(flags@, key@) == Ok::<(T::Parts, T::Parts), Seq<char>>(
                (pair[0].parts(), pair[1].parts()),
            ),
            Err(e) => two_of::<T>(flags@, key@) == Err::<(T::Parts, T::Parts), Seq<char>>(e@),
        },
{
    let values: &Vec<String> = match flags.values(key) {
        Some(values) => if values.len() == 2 {
            values
        } else {
            return Err(message("--", &chars_of(key), " must be given exactly twice"));
        },
        None => {
            return Err(message("--", &chars_of(key), " must be given exactly twice"));
        },
    };
    proof {
        assert(strings(values@)[0] == values@[0]@);
        assert(strings(values@)[1] == values@[1]@);
    }
    let a: T = match T::try_parse(values[0].as_str()) {
        Ok(a) => a,
        Err(e) => {
            return Err(e);
        },
    };
    let b: T = match T::try_parse(values[1].as_str()) {
        Ok(b) => b,
        Err(e) => {
            return Err(e);
        },
    };
    Ok([a, b])
}

} // verus!
