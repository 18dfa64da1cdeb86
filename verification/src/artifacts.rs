//! The published circuit artifacts.
//!
//! `verifying_key.hex` is the host-encoded verifying key that a `zk_verifier`
//! instance is constructed with: `key=hexvalue` lines, with blank lines and
//! `#` comments. `proving_key.bin` is the proving key in arkworks compressed
//! canonical form.

use crate::cli::bundle::{lemma_hex_plain, lemma_numbered_plain, lemma_plain, numbered};
use crate::curve::G1Affine;
use crate::encoding::{
    g1_encoding, g1_from_bytes, g1_named, g2_encoding, g2_from_bytes, g2_named, KeyParts,
    VerificationKeyBytes, VerifyingKey, G1_LEN, G2_LEN,
};
use crate::hex_codec::{
    decode, hex_decoded, hex_encoded, hex_fault_name, hex_fault_text, lemma_hex_roundtrip,
};
use crate::text::{
    append_str, append_text, chars_of, decimal, field_line, has_prefix, is_remark, is_tight,
    labelled, lemma_decimal_roundtrip, lemma_field_line, lemma_lines_written, lemma_numbers_differ,
    lemma_trim_tight, lines, lines_of, message, parse_int, parsed_int, remark, same_text, slice,
    split_once, split_once_of, string_of, texts, to_decimal, trim, trim_of, written,
};
use ark_bls12_381::Bls12_381;
use ark_serialize::CanonicalDeserialize;
use vstd::prelude::*;
use vstd::utf8::encode_utf8;

verus! {

/// The points that the lines read so far give.
#[verifier::ext_equal]
pub struct KeyLines {
    pub alpha: Option<Seq<u8>>,
    pub beta: Option<Seq<u8>>,
    pub gamma: Option<Seq<u8>>,
    pub delta: Option<Seq<u8>>,
    /// The IC points with their numbers, in the order of the lines.
    pub ic: Seq<(nat, Seq<u8>)>,
}

/// Nothing was read.
pub open spec fn no_lines() -> KeyLines {
    KeyLines { alpha: None, beta: None, gamma: None, delta: None, ic: Seq::empty() }
}

/// The number of an IC key `ic.<n>`.
pub open spec fn ic_number(key: Seq<char>) -> Option<nat> {
    if !"ic."@.is_prefix_of(key) {
        None
    } else {
        match parsed_int(key.skip(3), usize::MAX as nat) {
            Ok(n) => Some(n),
            Err(_) => None,
        }
    }
}

/// What one trimmed line adds, or what is wrong with it.
pub open spec fn with_line(read: KeyLines, line: Seq<char>) -> Result<KeyLines, Seq<char>> {
    if is_remark(line) {
        Ok(read)
    } else {
        match split_once_of(line, '=') {
            None => Err("malformed line: "@ + line),
            Some((key, value)) => match hex_decoded(encode_utf8(value)) {
                Err(e) => Err(key + ": "@ + hex_fault_text(e)),
                Ok(bytes) => if key == "alpha"@ {
                    Ok(KeyLines { alpha: Some(bytes), ..read })
                } else if key == "beta"@ {
                    Ok(KeyLines { beta: Some(bytes), ..read })
                } else if key == "gamma"@ {
                    Ok(KeyLines { gamma: Some(bytes), ..read })
                } else if key == "delta"@ {
                    Ok(KeyLines { delta: Some(bytes), ..read })
                } else {
                    match ic_number(key) {
                        None => Err("unknown key: "@ + key),
                        Some(n) => Ok(KeyLines { ic: read.ic.push((n, bytes)), ..read }),
                    }
                },
            },
        }
    }
}

/// What the first `n` lines give, or what is wrong with the first bad one.
pub open spec fn with_lines(all: Seq<Seq<char>>, n: nat) -> Result<KeyLines, Seq<char>>
    decreases n,
{
    if n == 0 {
        Ok(no_lines())
    } else {
        match with_lines(all, (n - 1) as nat) {
            Err(e) => Err(e),
            Ok(read) => with_line(read, trim_of(all[n - 1])),
        }
    }
}

/// A list in the order of the numbers, with one more entry behind those with
/// the same number.
pub open spec fn placed(sorted: Seq<(nat, Seq<u8>)>, entry: (nat, Seq<u8>)) -> Seq<(nat, Seq<u8>)>
    decreases sorted.len(),
{
    if sorted.len() == 0 || sorted.last().0 <= entry.0 {
        sorted.push(entry)
    } else {
        placed(sorted.drop_last(), entry).push(sorted.last())
    }
}

/// A list in the order of the numbers; entries with the same number keep their
/// order.
pub open spec fn by_number(list: Seq<(nat, Seq<u8>)>) -> Seq<(nat, Seq<u8>)>
    decreases list.len(),
{
    if list.len() == 0 {
        Seq::empty()
    } else {
        placed(by_number(list.drop_last()), list.last())
    }
}

/// A point that is there and has the right length, or what is wrong.
pub open spec fn sized(bytes: Option<Seq<u8>>, len: nat, name: Seq<char>) -> Result<
    Seq<u8>,
    Seq<char>,
> {
    match bytes {
        None => Err("missing "@ + name),
        Some(b) => if b.len() != len {
            Err(name + ": wrong length"@)
        } else {
            Ok(b)
        },
    }
}

/// The first IC point of the wrong length, or the number of points.
pub open spec fn first_missized(ic: Seq<(nat, Seq<u8>)>) -> nat
    decreases ic.len(),
{
    if ic.len() == 0 || ic[0].1.len() != 96 {
        0
    } else {
        1 + first_missized(ic.skip(1))
    }
}

/// The key that lines give, or what is wrong with them.
pub open spec fn assembled(read: KeyLines) -> Result<KeyParts, Seq<char>> {
    match sized(read.alpha, 96, "alpha"@) {
        Err(e) => Err(e),
        Ok(alpha) => match sized(read.beta, 192, "beta"@) {
            Err(e) => Err(e),
            Ok(beta) => match sized(read.gamma, 192, "gamma"@) {
                Err(e) => Err(e),
                Ok(gamma) => match sized(read.delta, 192, "delta"@) {
                    Err(e) => Err(e),
                    Ok(delta) => {
                        let ic = by_number(read.ic);
                        let bad = first_missized(ic);
                        if bad < ic.len() {
                            Err("ic."@ + decimal(ic[bad as int].0) + ": wrong length"@)
                        } else {
                            Ok(
                                KeyParts {
                                    alpha,
                                    beta,
                                    gamma,
                                    delta,
                                    ic: Seq::new(ic.len(), |i: int| ic[i].1),
                                },
                            )
                        }
                    },
                },
            },
        },
    }
}

/// The verifying key that an artifact's text gives, or what is wrong with it.
pub open spec fn parsed_key(text: Seq<char>) -> Result<KeyParts, Seq<char>> {
    match with_lines(lines_of(text), lines_of(text).len()) {
        Err(e) => Err(e),
        Ok(read) => assembled(read),
    }
}

/// Points as they are read.
struct Reading {
    alpha: Option<Vec<u8>>,
    beta: Option<Vec<u8>>,
    gamma: Option<Vec<u8>>,
    delta: Option<Vec<u8>>,
    ic: Vec<(usize, Vec<u8>)>,
}

spec fn bytes_view(b: Option<Vec<u8>>) -> Option<Seq<u8>> {
    match b {
        Some(v) => Some(v@),
        None => None,
    }
}

spec fn ic_view(ic: Seq<(usize, Vec<u8>)>) -> Seq<(nat, Seq<u8>)> {
    Seq::new(ic.len(), |i: int| (ic[i].0 as nat, ic[i].1@))
}

impl Reading {
    /// These are the points of the lines, with the IC points in order.
    spec fn holds(self, read: KeyLines) -> bool {
        &&& bytes_view(self.alpha) == read.alpha
        &&& bytes_view(self.beta) == read.beta
        &&& bytes_view(self.gamma) == read.gamma
        &&& bytes_view(self.delta) == read.delta
        &&& ic_view(self.ic@) == by_number(read.ic)
    }
}

/// An entry goes behind those whose number is not larger.
proof fn lemma_placed(sorted: Seq<(nat, Seq<u8>)>, entry: (nat, Seq<u8>), at: int)
    requires
        0 <= at <= sorted.len(),
        at > 0 ==> sorted[at - 1].0 <= entry.0,
        forall|k: int| at <= k < sorted.len() ==> (#[trigger] sorted[k]).0 > entry.0,
    ensures
        placed(sorted, entry) == sorted.insert(at, entry),
    decreases sorted.len(),
{
    if at == sorted.len() {
        assert(sorted.insert(at, entry) =~= sorted.push(entry));
    } else {
        lemma_placed(sorted.drop_last(), entry, at);
        assert(sorted.insert(at, entry) =~= sorted.drop_last().insert(at, entry).push(
            sorted.last(),
        ));
    }
}

/// Puts an IC point in its place.
fn place(ic: &mut Vec<(usize, Vec<u8>)>, number: usize, bytes: Vec<u8>)
    ensures
        ic_view(final(ic)@) == placed(ic_view(old(ic)@), (number as nat, bytes@)),
{
    let ghost before = ic_view(ic@);
    let ghost entry = (number as nat, bytes@);
    let mut at: usize = ic.len();
    while at > 0 && ic[at - 1].0 > number
        invariant
            at <= ic@.len(),
            before == ic_view(ic@),
            entry.0 == number,
            forall|k: int| at <= k < ic@.len() ==> (#[trigger] before[k]).0 > entry.0,
        decreases at,
    {
        at = at - 1;
    }
    proof {
        lemma_placed(before, entry, at as int);
    }
    ic.insert(at, (number, bytes));
    proof {
        assert(ic_view(ic@) =~= before.insert(at as int, entry));
    }
}

/// The number of an IC key.
fn ic_index(key: &Vec<char>) -> (number: Option<usize>)
    ensures
        match number {
            Some(n) => ic_number(key@) == Some(n as nat),
            None => ic_number(key@) is None,
        },
{
    let prefix: Vec<char> = chars_of("ic.");
    proof {
        reveal_strlit("ic.");
    }
    if !has_prefix(key, &prefix) {
        return None;
    }
    let rest: Vec<char> = slice(key, 3, key.len());
    proof {
        assert(rest@ =~= key@.skip(3));
    }
    match parse_int(&rest, usize::MAX as u64) {
        Ok(n) => Some(n as usize),
        Err(_) => None,
    }
}

/// Reads one trimmed line.
fn read_line(reading: &mut Reading, line: &Vec<char>, Ghost(read): Ghost<KeyLines>) -> (done:
    Result<(), String>)
    requires
        old(reading).holds(read),
    ensures
        match done {
            Ok(_) => with_line(read, line@) matches Ok(more) && final(reading).holds(more),
            Err(e) => with_line(read, line@) == Err::<KeyLines, Seq<char>>(e@),
        },
{
    if remark(line) {
        return Ok(());
    }
    let (key, value): (Vec<char>, Vec<char>) = match split_once(line, '=') {
        Some(parts) => parts,
        None => {
            return Err(labelled("malformed line: ", line));
        },
    };
    let bytes: Vec<u8> = match decode(string_of(&value).as_str()) {
        Ok(bytes) => bytes,
        Err(e) => {
            let mut out: Vec<char> = slice(&key, 0, key.len());
            append_str(&mut out, ": ");
            append_text(&mut out, &hex_fault_name(&e));
            proof {
                assert(key@.subrange(0, key@.len() as int) =~= key@);
            }
            return Err(string_of(&out));
        },
    };
    if same_text(&key, &chars_of("alpha")) {
        reading.alpha = Some(bytes);
    } else if same_text(&key, &chars_of("beta")) {
        reading.beta = Some(bytes);
    } else if same_text(&key, &chars_of("gamma")) {
        reading.gamma = Some(bytes);
    } else if same_text(&key, &chars_of("delta")) {
        reading.delta = Some(bytes);
    } else {
        match ic_index(&key) {
            Some(number) => {
                proof {
                    let entry = (number as nat, bytes@);
                    assert(read.ic.push(entry).drop_last() =~= read.ic);
                }
                place(&mut reading.ic, number, bytes);
            },
            None => {
                return Err(labelled("unknown key: ", &key));
            },
        }
    }
    Ok(())
}

/// A 96-byte point, or what is wrong with it.
fn take_g1(bytes: &Option<Vec<u8>>, name: &str) -> (point: Result<[u8; G1_LEN], String>)
    ensures
        match point {
            Ok(p) => sized(bytes_view(*bytes), 96, name@) == Ok::<Seq<u8>, Seq<char>>(p@),
            Err(e) => sized(bytes_view(*bytes), 96, name@) == Err::<Seq<u8>, Seq<char>>(e@),
        },
{
    match bytes {
        None => {
            Err(labelled("missing ", &chars_of(name)))
        },
        Some(v) => match to_g1(v) {
            Some(p) => Ok(p),
            None => {
                let mut out: Vec<char> = chars_of(name);
                append_str(&mut out, ": wrong length");
                Err(string_of(&out))
            },
        },
    }
}

/// A 192-byte point, or what is wrong with it.
fn take_g2(bytes: &Option<Vec<u8>>, name: &str) -> (point: Result<[u8; G2_LEN], String>)
    ensures
        match point {
            Ok(p) => sized(bytes_view(*bytes), 192, name@) == Ok::<Seq<u8>, Seq<char>>(p@),
            Err(e) => sized(bytes_view(*bytes), 192, name@) == Err::<Seq<u8>, Seq<char>>(e@),
        },
{
    match bytes {
        None => {
            Err(labelled("missing ", &chars_of(name)))
        },
        Some(v) => match to_g2(v) {
            Some(p) => Ok(p),
            None => {
                let mut out: Vec<char> = chars_of(name);
                append_str(&mut out, ": wrong length");
                Err(string_of(&out))
            },
        },
    }
}

/// 96 bytes as an array.
pub fn to_g1(v: &Vec<u8>) -> (point: Option<[u8; G1_LEN]>)
    ensures
        match point {
            Some(p) => p@ == v@,
            None => v@.len() != 96,
        },
{
    if v.len() != G1_LEN {
        return None;
    }
    let mut p: [u8; G1_LEN] = [0u8; G1_LEN];
    let mut i: usize = 0;
    while i < G1_LEN
        invariant
            i <= 96,
            v@.len() == 96,
            forall|k: int| 0 <= k < i ==> p[k] == v@[k],
        decreases 96 - i,
    {
        p[i] = v[i];
        i = i + 1;
    }
    proof {
        assert(p@ =~= v@);
    }
    Some(p)
}

/// 192 bytes as an array.
pub fn to_g2(v: &Vec<u8>) -> (point: Option<[u8; G2_LEN]>)
    ensures
        match point {
            Some(p) => p@ == v@,
            None => v@.len() != 192,
        },
{
    if v.len() != G2_LEN {
        return None;
    }
    let mut p: [u8; G2_LEN] = [0u8; G2_LEN];
    let mut i: usize = 0;
    while i < G2_LEN
        invariant
            i <= 192,
            v@.len() == 192,
            forall|k: int| 0 <= k < i ==> p[k] == v@[k],
        decreases 192 - i,
    {
        p[i] = v[i];
        i = i + 1;
    }
    proof {
        assert(p@ =~= v@);
    }
    Some(p)
}

proof fn lemma_first_missized(ic: Seq<(nat, Seq<u8>)>, at: nat)
    requires
        at <= ic.len(),
        forall|k: int| 0 <= k < at ==> (#[trigger] ic[k]).1.len() == 96,
        at < ic.len() ==> ic[at as int].1.len() != 96,
    ensures
        first_missized(ic) == at,
    decreases at,
{
    if at > 0 {
        let rest = ic.skip(1);
        assert forall|k: int| 0 <= k < at - 1 implies (#[trigger] rest[k]).1.len() == 96 by {
            assert(rest[k] == ic[k + 1]);
        }
        lemma_first_missized(rest, (at - 1) as nat);
    }
}

/// The IC points, or what is wrong with the first bad one.
fn take_ic(ic: &Vec<(usize, Vec<u8>)>) -> (points: Result<Vec<[u8; G1_LEN]>, String>)
    ensures
        ({
            let list = ic_view(ic@);
            let bad = first_missized(list);
            match points {
                Ok(ps) => {
                    &&& bad >= list.len()
                    &&& ps@.len() == list.len()
                    &&& forall|i: int| 0 <= i < ps@.len() ==> (#[trigger] ps@[i])@ == list[i].1
                },
                Err(e) => bad < list.len() && e@ == "ic."@ + decimal(list[bad as int].0)
                    + ": wrong length"@,
            }
        }),
{
    let ghost list = ic_view(ic@);
    let mut points: Vec<[u8; G1_LEN]> = Vec::new();
    let mut i: usize = 0;
    while i < ic.len()
        invariant
            i <= ic@.len(),
            list == ic_view(ic@),
            points@.len() == i,
            forall|k: int| 0 <= k < i ==> (#[trigger] list[k]).1.len() == 96,
            forall|k: int| 0 <= k < i ==> (#[trigger] points@[k])@ == list[k].1,
        decreases ic@.len() - i,
    {
        proof {
            assert(list[i as int] == (ic@[i as int].0 as nat, ic@[i as int].1@));
        }
        match to_g1(&ic[i].1) {
            Some(p) => {
                points.push(p);
            },
            None => {
                proof {
                    lemma_first_missized(list, i as nat);
                }
                return Err(message("ic.", &to_decimal(ic[i].0 as u128), ": wrong length"));
            },
        }
        i = i + 1;
    }
    proof {
        lemma_first_missized(list, i as nat);
    }
    Ok(points)
}

proof fn lemma_line_fault_stays(all: Seq<Seq<char>>, m: nat, n: nat)
    requires
        m <= n,
        with_lines(all, m) is Err,
    ensures
        with_lines(all, n) == with_lines(all, m),
    decreases n,
{
    if m < n {
        lemma_line_fault_stays(all, m, (n - 1) as nat);
    }
}

/// Parses the `key=hexvalue` lines of a `verifying_key.hex` artifact.
pub fn parse_vk_hex(text: &str) -> (parsed: Result<VerificationKeyBytes, String>)
    ensures
        match parsed {
            Ok(vk) => parsed_key(text@) == Ok::<KeyParts, Seq<char>>(vk@),
            Err(e) => parsed_key(text@) == Err::<KeyParts, Seq<char>>(e@),
        },
{
    let all: Vec<Vec<char>> = lines(&chars_of(text));
    let ghost all_lines = texts(all@);
    let mut reading = Reading {
        alpha: None,
        beta: None,
        gamma: None,
        delta: None,
        ic: Vec::new(),
    };
    proof {
        assert(ic_view(reading.ic@) =~= by_number(no_lines().ic));
    }
    let ghost mut read: KeyLines = no_lines();
    let mut i: usize = 0;
    while i < all.len()
        invariant
            i <= all@.len(),
            all_lines == texts(all@),
            all_lines == lines_of(text@),
            with_lines(all_lines, i as nat) == Ok::<KeyLines, Seq<char>>(read),
            reading.holds(read),
        decreases all@.len() - i,
    {
        let line: Vec<char> = trim(&all[i]);
        proof {
            assert(all_lines[i as int] == all@[i as int]@);
        }
        match read_line(&mut reading, &line, Ghost(read)) {
            Ok(_) => {
                proof {
                    read = with_line(read, line@)->Ok_0;
                }
            },
            Err(e) => {
                proof {
                    lemma_line_fault_stays(all_lines, (i + 1) as nat, all_lines.len());
                }
                return Err(e);
            },
        }
        i = i + 1;
    }
    let alpha: [u8; G1_LEN] = match take_g1(&reading.alpha, "alpha") {
        Ok(p) => p,
        Err(e) => {
            return Err(e);
        },
    };
    let beta: [u8; G2_LEN] = match take_g2(&reading.beta, "beta") {
        Ok(p) => p,
        Err(e) => {
            return Err(e);
        },
    };
    let gamma: [u8; G2_LEN] = match take_g2(&reading.gamma, "gamma") {
        Ok(p) => p,
        Err(e) => {
            return Err(e);
        },
    };
    let delta: [u8; G2_LEN] = match take_g2(&reading.delta, "delta") {
        Ok(p) => p,
        Err(e) => {
            return Err(e);
        },
    };
    let ic: Vec<[u8; G1_LEN]> = match take_ic(&reading.ic) {
        Ok(ps) => ps,
        Err(e) => {
            return Err(e);
        },
    };
    let vk = VerificationKeyBytes { alpha, beta, gamma, delta, ic };
    proof {
        assert(parsed_key(text@)->Ok_0 =~= vk@);
    }
    Ok(vk)
}

/// Reconstructs a verifying key from host-encoded bytes.
pub fn vk_from_bytes(bytes: &VerificationKeyBytes) -> (vk: VerifyingKey)
    ensures
        bytes.names(vk),
{
    let mut gamma_abc_g1: Vec<G1Affine> = Vec::new();
    let mut i: usize = 0;
    while i < bytes.ic.len()
        invariant
            i <= bytes.ic@.len(),
            gamma_abc_g1@.len() == i,
            forall|k: int|
                0 <= k < i ==> (#[trigger] gamma_abc_g1@[k])@ == g1_named(bytes.ic@[k]@),
        decreases bytes.ic@.len() - i,
    {
        gamma_abc_g1.push(g1_from_bytes(&bytes.ic[i]));
        i = i + 1;
    }
    VerifyingKey {
        alpha_g1: g1_from_bytes(&bytes.alpha),
        beta_g2: g2_from_bytes(&bytes.beta),
        gamma_g2: g2_from_bytes(&bytes.gamma),
        delta_g2: g2_from_bytes(&bytes.delta),
        gamma_abc_g1,
    }
}

/// A Groth16 proving key over BLS12-381, as `ark_groth16` holds it. The library
/// reads it and hands it on; what is inside is the prover's affair.
#[verifier::external_body]
pub struct ProvingKey {
    pub key: ark_groth16::ProvingKey<Bls12_381>,
}

/// What bytes hold, read as a proving key in compressed canonical form.
pub uninterp spec fn proving_key_read(data: Seq<u8>) -> Result<ProvingKey, Seq<char>>;

/// The number in the eight bytes from some position on, least significant
/// first.
pub open spec fn count_at(data: Seq<u8>, at: nat) -> nat {
    let b = data.skip(at as int);
    (b[0] + 0x100 * b[1] + 0x1_0000 * b[2] + 0x100_0000 * b[3] + 0x1_0000_0000 * b[4]
        + 0x100_0000_0000 * b[5] + 0x1_0000_0000_0000 * b[6] + 0x100_0000_0000_0000 * b[7]) as nat
}

/// Where a list of items of some size ends that stands, behind its length,
/// `skip` bytes after a position. There is no such list if it would run past
/// the end of the data; where its length is cut off, it ends with the data.
pub open spec fn list_end(data: Seq<u8>, at: nat, skip: nat, size: nat) -> Option<nat> {
    let start = at + skip;
    if start + 8 > data.len() {
        Some(data.len())
    } else if start + 8 + count_at(data, start) * size > data.len() {
        None
    } else {
        Some(start + 8 + count_at(data, start) * size)
    }
}

/// No list of points of a proving key is longer than the data. They are the IC
/// points, behind four points, and the five queries, behind two more.
pub open spec fn lists_fit(data: Seq<u8>) -> bool {
    &&& list_end(data, 0, 336, 48) matches Some(ic)
    &&& list_end(data, ic, 96, 48) matches Some(a)
    &&& list_end(data, a, 0, 48) matches Some(b1)
    &&& list_end(data, b1, 0, 96) matches Some(b2)
    &&& list_end(data, b2, 0, 48) matches Some(h)
    &&& list_end(data, h, 0, 48) is Some
}

/// The proving key that bytes hold, or what is wrong with them.
pub open spec fn proving_key_of(data: Seq<u8>) -> Result<ProvingKey, Seq<char>> {
    if !lists_fit(data) {
        Err("the input buffer contained invalid data"@)
    } else {
        proving_key_read(data)
    }
}

/// `CanonicalDeserialize::deserialize_compressed` of `ark_groth16::ProvingKey`
/// over BLS12-381, which checks every point. Its result, with the text of the
/// error, is named [`proving_key_read`] of the bytes. It makes room for a list
/// before it reads it, so no list that the bytes announce may be longer than
/// they are.
#[verifier::external_body]
fn ark_proving_key(data: &Vec<u8>) -> (key: Result<ProvingKey, String>)
    requires
        lists_fit(data@),
    ensures
        match key {
            Ok(k) => proving_key_read(data@) == Ok::<ProvingKey, Seq<char>>(k),
            Err(e) => proving_key_read(data@) == Err::<ProvingKey, Seq<char>>(e@),
        },
{
    match ark_groth16::ProvingKey::deserialize_compressed(&data[..]) {
        Ok(key) => Ok(ProvingKey { key }),
        Err(e) => Err(format!("{e}")),
    }
}

/// Where a list of items ends.
fn find_list_end(data: &Vec<u8>, at: usize, skip: usize, size: usize) -> (end: Option<usize>)
    requires
        at <= data@.len(),
        skip <= 336,
        size <= 96,
    ensures
        match end {
            Some(e) => list_end(data@, at as nat, skip as nat, size as nat) == Some(e as nat) && e
                <= data@.len(),
            None => list_end(data@, at as nat, skip as nat, size as nat) is None,
        },
{
    if data.len() - at < skip + 8 {
        return Some(data.len());
    }
    let start: usize = at + skip;
    let count: u128 = data[start] as u128 + 0x100 * data[start + 1] as u128 + 0x1_0000 * data[start
        + 2] as u128 + 0x100_0000 * data[start + 3] as u128 + 0x1_0000_0000 * data[start
        + 4] as u128 + 0x100_0000_0000 * data[start + 5] as u128 + 0x1_0000_0000_0000 * data[start
        + 6] as u128 + 0x100_0000_0000_0000 * data[start + 7] as u128;
    proof {
        assert(count == count_at(data@, start as nat));
        assert(count * size <= 0x1_0000_0000_0000_0000 * 96) by (nonlinear_arith)
            requires
                count <= 0x1_0000_0000_0000_0000,
                size <= 96,
        ;
    }
    let bytes: u128 = count * size as u128;
    if bytes > (data.len() - start - 8) as u128 {
        return None;
    }
    Some(start + 8 + bytes as usize)
}

/// Whether no list of points of a proving key is longer than the data.
fn lists_in_bounds(data: &Vec<u8>) -> (fit: bool)
    ensures
        fit == lists_fit(data@),
{
    let ic: usize = match find_list_end(data, 0, 336, 48) {
        Some(ic) => ic,
        None => {
            return false;
        },
    };
    let a: usize = match find_list_end(data, ic, 96, 48) {
        Some(a) => a,
        None => {
            return false;
        },
    };
    let b1: usize = match find_list_end(data, a, 0, 48) {
        Some(b1) => b1,
        None => {
            return false;
        },
    };
    let b2: usize = match find_list_end(data, b1, 0, 96) {
        Some(b2) => b2,
        None => {
            return false;
        },
    };
    let h: usize = match find_list_end(data, b2, 0, 48) {
        Some(h) => h,
        None => {
            return false;
        },
    };
    find_list_end(data, h, 0, 48).is_some()
}

/// Reads a proving key in arkworks compressed canonical form.
pub fn proving_key(data: &Vec<u8>) -> (key: Result<ProvingKey, String>)
    ensures
        match key {
            Ok(k) => proving_key_of(data@) == Ok::<ProvingKey, Seq<char>>(k),
            Err(e) => proving_key_of(data@) == Err::<ProvingKey, Seq<char>>(e@),
        },
{
    if !lists_in_bounds(data) {
        return Err("the input buffer contained invalid data".to_owned());
    }
    ark_proving_key(data)
}

/// **IC points come in the order of their numbers.** What is read is what the
/// lines give, sorted.
pub proof fn lemma_ic_in_order(list: Seq<(nat, Seq<u8>)>)
    ensures
        by_number(list).to_multiset() == list.to_multiset(),
        forall|i: int, j: int|
            0 <= i < j < by_number(list).len() ==> (#[trigger] by_number(list)[i]).0 <= (
            #[trigger] by_number(list)[j]).0,
    decreases list.len(),
{
    broadcast use vstd::seq_lib::group_to_multiset_ensures;

    if list.len() == 0 {
        assert(by_number(list) =~= list);
    } else {
        let before = list.drop_last();
        lemma_ic_in_order(before);
        lemma_placed_in_order(by_number(before), list.last());
        assert(list =~= before.push(list.last()));
    }
}

/// A sorted list stays sorted, and gains the entry.
proof fn lemma_placed_in_order(sorted: Seq<(nat, Seq<u8>)>, entry: (nat, Seq<u8>))
    requires
        forall|i: int, j: int|
            0 <= i < j < sorted.len() ==> (#[trigger] sorted[i]).0 <= (#[trigger] sorted[j]).0,
    ensures
        placed(sorted, entry).to_multiset() == sorted.to_multiset().insert(entry),
        placed(sorted, entry).len() == sorted.len() + 1,
        forall|i: int, j: int|
            0 <= i < j < placed(sorted, entry).len() ==> (#[trigger] placed(sorted, entry)[i]).0 <= (
            #[trigger] placed(sorted, entry)[j]).0,
        forall|i: int|
            0 <= i < placed(sorted, entry).len() ==> (#[trigger] placed(sorted, entry)[i]).0
                <= entry.0 || (sorted.len() > 0 && placed(sorted, entry)[i].0 <= sorted.last().0),
    decreases sorted.len(),
{
    broadcast use vstd::seq_lib::group_to_multiset_ensures;

    if sorted.len() == 0 || sorted.last().0 <= entry.0 {
        assert forall|i: int| 0 <= i < sorted.len() implies (#[trigger] sorted[i]).0
            <= sorted.last().0 by {
            if i < sorted.len() - 1 {
                assert(sorted[i].0 <= sorted[sorted.len() - 1].0);
            }
        }
    } else {
        let before = sorted.drop_last();
        let last = sorted.last();
        assert forall|i: int, j: int| 0 <= i < j < before.len() implies (#[trigger] before[i]).0 <= (
        #[trigger] before[j]).0 by {
            assert(before[i] == sorted[i] && before[j] == sorted[j]);
        }
        lemma_placed_in_order(before, entry);
        assert(sorted =~= before.push(last));
        let rest = placed(before, entry);
        if before.len() > 0 {
            assert(before.last() == sorted[sorted.len() - 2]);
            assert(sorted[sorted.len() - 2].0 <= sorted[sorted.len() - 1].0);
        }
        assert(placed(sorted, entry) =~= rest.push(last));
        assert(before.to_multiset().insert(entry).insert(last) =~= before.to_multiset().insert(
            last,
        ).insert(entry));
    }
}

/// The fields of a verifying key, as an artifact publishes them.
pub open spec fn key_fields(vk: KeyParts) -> Seq<(Seq<char>, Seq<char>)> {
    seq![
        ("alpha"@, hex_encoded(vk.alpha)),
        ("beta"@, hex_encoded(vk.beta)),
        ("gamma"@, hex_encoded(vk.gamma)),
        ("delta"@, hex_encoded(vk.delta)),
    ] + numbered("ic."@, vk.ic)
}

/// The lines that publish a verifying key.
pub open spec fn key_lines(vk: KeyParts) -> Seq<Seq<char>> {
    Seq::new(key_fields(vk).len(), |i: int| field_line(key_fields(vk)[i]))
}

/// The text that publishes a verifying key.
pub open spec fn key_text(vk: KeyParts) -> Seq<char> {
    written(key_lines(vk))
}

/// The first `n` lines without the spaces around them, and without blank ones
/// and comments.
pub open spec fn said_lines(all: Seq<Seq<char>>, n: nat) -> Seq<Seq<char>>
    decreases n,
{
    if n == 0 {
        Seq::empty()
    } else {
        let before = said_lines(all, (n - 1) as nat);
        let line = trim_of(all[n - 1]);
        if is_remark(line) {
            before
        } else {
            before.push(line)
        }
    }
}

/// What trimmed lines give.
spec fn folded(said: Seq<Seq<char>>) -> Result<KeyLines, Seq<char>>
    decreases said.len(),
{
    if said.len() == 0 {
        Ok(no_lines())
    } else {
        match folded(said.drop_last()) {
            Err(e) => Err(e),
            Ok(read) => with_line(read, said.last()),
        }
    }
}

proof fn lemma_folded(all: Seq<Seq<char>>, n: nat)
    ensures
        with_lines(all, n) == folded(said_lines(all, n)),
    decreases n,
{
    if n > 0 {
        lemma_folded(all, (n - 1) as nat);
        let before = said_lines(all, (n - 1) as nat);
        let line = trim_of(all[n - 1]);
        if !is_remark(line) {
            assert(before.push(line).drop_last() =~= before);
        }
    }
}

/// What a published line of a key adds.
spec fn with_part(read: KeyLines, vk: KeyParts, i: int) -> KeyLines {
    if i == 0 {
        KeyLines { alpha: Some(vk.alpha), ..read }
    } else if i == 1 {
        KeyLines { beta: Some(vk.beta), ..read }
    } else if i == 2 {
        KeyLines { gamma: Some(vk.gamma), ..read }
    } else if i == 3 {
        KeyLines { delta: Some(vk.delta), ..read }
    } else {
        KeyLines { ic: read.ic.push(((i - 4) as nat, vk.ic[i - 4])), ..read }
    }
}

/// The letters that the keys begin with.
proof fn lemma_key_initials()
    ensures
        "alpha"@.len() > 0 && "alpha"@[0] == 'a',
        "beta"@.len() > 0 && "beta"@[0] == 'b',
        "gamma"@.len() > 0 && "gamma"@[0] == 'g',
        "delta"@.len() > 0 && "delta"@[0] == 'd',
        "ic."@ == seq!['i', 'c', '.'],
        forall|k: int| 0 <= k < "alpha"@.len() ==> "alpha"@[k] != '=',
        forall|k: int| 0 <= k < "beta"@.len() ==> "beta"@[k] != '=',
        forall|k: int| 0 <= k < "gamma"@.len() ==> "gamma"@[k] != '=',
        forall|k: int| 0 <= k < "delta"@.len() ==> "delta"@[k] != '=',
{
    reveal_strlit("alpha");
    reveal_strlit("beta");
    reveal_strlit("gamma");
    reveal_strlit("delta");
    reveal_strlit("ic.");
    assert("ic."@ =~= seq!['i', 'c', '.']);
}

/// A published field is split at its equals sign.
proof fn lemma_key_field(vk: KeyParts, i: int)
    requires
        0 <= i < key_fields(vk).len(),
    ensures
        !is_remark(key_lines(vk)[i]),
        split_once_of(key_lines(vk)[i], '=') == Some(key_fields(vk)[i]),
{
    lemma_key_initials();
    let field = key_fields(vk)[i];
    if i >= 4 {
        let digits = decimal((i - 4) as nat);
        lemma_decimal_roundtrip((i - 4) as nat, (i - 4) as nat);
        assert(field.0 == "ic."@ + digits);
        assert forall|k: int| 0 <= k < field.0.len() implies field.0[k] != '=' by {
            if k >= 3 {
                assert(field.0[k] == digits[k - 3]);
            }
        }
    }
    lemma_field_line(field);
}

/// A published line adds its point.
proof fn lemma_key_line(read: KeyLines, vk: KeyParts, i: int)
    requires
        0 <= i < key_fields(vk).len(),
        vk.ic.len() <= usize::MAX,
    ensures
        with_line(read, key_lines(vk)[i]) == Ok::<KeyLines, Seq<char>>(with_part(read, vk, i)),
{
    lemma_key_initials();
    lemma_key_field(vk, i);
    let field = key_fields(vk)[i];
    if i == 0 {
        lemma_hex_roundtrip(vk.alpha);
    } else if i == 1 {
        lemma_hex_roundtrip(vk.beta);
    } else if i == 2 {
        lemma_hex_roundtrip(vk.gamma);
    } else if i == 3 {
        lemma_hex_roundtrip(vk.delta);
    } else {
        let n = (i - 4) as nat;
        lemma_hex_roundtrip(vk.ic[i - 4]);
        lemma_decimal_roundtrip(n, usize::MAX as nat);
        assert(field.0 == "ic."@ + decimal(n));
        assert(field.0[0] == 'i');
        assert("ic."@.is_prefix_of(field.0)) by {
            assert(field.0.subrange(0, 3) =~= "ic."@);
        }
        assert(field.0.skip(3) =~= decimal(n));
        assert(ic_number(field.0) == Some(n));
    }
}

/// The published lines differ.
proof fn lemma_key_lines_differ(vk: KeyParts)
    ensures
        key_lines(vk).no_duplicates(),
{
    assert forall|i: int, j: int|
        0 <= i < j < key_lines(vk).len() implies key_lines(vk)[i] != key_lines(vk)[j] by {
        lemma_key_initials();
        lemma_key_field(vk, i);
        lemma_key_field(vk, j);
        if j >= 4 {
            assert(key_fields(vk)[j].0[0] == 'i');
        }
        if i >= 4 {
            lemma_numbers_differ("ic."@, (i - 4) as nat, (j - 4) as nat);
        }
    }
}

/// The lines give the points of a key that they publish, and no others.
spec fn gives(read: KeyLines, vk: KeyParts, said: Seq<Seq<char>>) -> bool {
    let all = key_lines(vk);
    &&& read.alpha == (if said.contains(all[0]) { Some(vk.alpha) } else { None })
    &&& read.beta == (if said.contains(all[1]) { Some(vk.beta) } else { None })
    &&& read.gamma == (if said.contains(all[2]) { Some(vk.gamma) } else { None })
    &&& read.delta == (if said.contains(all[3]) { Some(vk.delta) } else { None })
    &&& read.ic.no_duplicates()
    &&& forall|x: (nat, Seq<u8>)| #[trigger]
        read.ic.contains(x) <==> x.0 < vk.ic.len() && x.1 == vk.ic[x.0 as int] && said.contains(
            all[4 + x.0 as int],
        )
}

proof fn lemma_gives(vk: KeyParts, said: Seq<Seq<char>>)
    requires
        vk.ic.len() <= usize::MAX,
        said.no_duplicates(),
        forall|j: int| 0 <= j < said.len() ==> key_lines(vk).contains(#[trigger] said[j]),
    ensures
        folded(said) matches Ok(read) && gives(read, vk, said),
    decreases said.len(),
{
    let all = key_lines(vk);
    if said.len() > 0 {
        let before = said.drop_last();
        let last = said.last();
        assert forall|j: int| 0 <= j < before.len() implies all.contains(
            #[trigger] before[j],
        ) by {
            assert(before[j] == said[j]);
        }
        lemma_gives(vk, before);
        let read = folded(before)->Ok_0;
        assert(said =~= before.push(last));
        assert(all.contains(said[said.len() - 1]));
        let i = choose|i: int| 0 <= i < all.len() && all[i] == last;
        lemma_key_line(read, vk, i);
        lemma_key_lines_differ(vk);
        assert(!before.contains(last));
        assert forall|y: Seq<char>| said.contains(y) <==> before.contains(y) || y == last by {
            if before.contains(y) {
                let k = choose|k: int| 0 <= k < before.len() && before[k] == y;
                assert(said[k] == y);
            }
            if y == last {
                assert(said[said.len() - 1] == y);
            }
        }
        let after = with_part(read, vk, i);
        if i >= 4 {
            let entry = ((i - 4) as nat, vk.ic[i - 4]);
            assert(!read.ic.contains(entry));
            assert(after.ic == read.ic.push(entry));
            assert forall|x: (nat, Seq<u8>)| #[trigger]
                after.ic.contains(x) <==> read.ic.contains(x) || x == entry by {
                if read.ic.contains(x) {
                    let k = choose|k: int| 0 <= k < read.ic.len() && read.ic[k] == x;
                    assert(after.ic[k] == x);
                }
                if x == entry {
                    assert(after.ic[read.ic.len() as int] == x);
                }
            }
        }
        assert(gives(after, vk, said));
    }
}

/// Different numbers in order, as many as there are below a bound, are all the
/// numbers below it.
proof fn lemma_all_numbers(sorted: Seq<(nat, Seq<u8>)>, i: int)
    requires
        0 <= i < sorted.len(),
        forall|j: int, k: int|
            0 <= j < k < sorted.len() ==> (#[trigger] sorted[j]).0 < (#[trigger] sorted[k]).0,
        forall|j: int| 0 <= j < sorted.len() ==> (#[trigger] sorted[j]).0 < sorted.len(),
    ensures
        sorted[i].0 == i,
{
    lemma_at_least(sorted, i);
    lemma_at_most(sorted, i);
}

proof fn lemma_at_least(sorted: Seq<(nat, Seq<u8>)>, i: int)
    requires
        0 <= i < sorted.len(),
        forall|j: int, k: int|
            0 <= j < k < sorted.len() ==> (#[trigger] sorted[j]).0 < (#[trigger] sorted[k]).0,
    ensures
        sorted[i].0 >= i,
    decreases i,
{
    if i > 0 {
        lemma_at_least(sorted, i - 1);
        assert(sorted[i - 1].0 < sorted[i].0);
    }
}

proof fn lemma_at_most(sorted: Seq<(nat, Seq<u8>)>, i: int)
    requires
        0 <= i < sorted.len(),
        forall|j: int, k: int|
            0 <= j < k < sorted.len() ==> (#[trigger] sorted[j]).0 < (#[trigger] sorted[k]).0,
        forall|j: int| 0 <= j < sorted.len() ==> (#[trigger] sorted[j]).0 < sorted.len(),
    ensures
        sorted[i].0 <= i,
    decreases sorted.len() - i,
{
    if i < sorted.len() - 1 {
        lemma_at_most(sorted, i + 1);
        assert(sorted[i].0 < sorted[i + 1].0);
    }
}

/// Lists with the same items have the same length and hold the same.
proof fn lemma_same_items<A>(a: Seq<A>, b: Seq<A>)
    requires
        a.to_multiset() == b.to_multiset(),
    ensures
        a.len() == b.len(),
        forall|x: A| a.contains(x) <==> b.contains(x),
{
    broadcast use vstd::seq_lib::group_to_multiset_ensures;

    assert(a.to_multiset().len() == a.len());
    assert(b.to_multiset().len() == b.len());
    assert forall|x: A| a.contains(x) <==> b.contains(x) by {
        assert(a.contains(x) <==> a.to_multiset().count(x) > 0);
        assert(b.contains(x) <==> b.to_multiset().count(x) > 0);
    }
}

/// The IC points of a key, in whatever order they were read, come out in
/// theirs.
proof fn lemma_ic_restored(read: Seq<(nat, Seq<u8>)>, ic: Seq<Seq<u8>>)
    requires
        read.no_duplicates(),
        forall|x: (nat, Seq<u8>)| #[trigger]
            read.contains(x) <==> x.0 < ic.len() && x.1 == ic[x.0 as int],
    ensures
        by_number(read) == Seq::new(ic.len(), |i: int| (i as nat, ic[i])),
{
    broadcast use vstd::seq_lib::group_to_multiset_ensures;
    broadcast use vstd::multiset::group_multiset_axioms;

    let sorted = by_number(read);
    let want = Seq::new(ic.len(), |i: int| (i as nat, ic[i]));
    lemma_ic_in_order(read);
    read.lemma_multiset_has_no_duplicates();
    sorted.lemma_multiset_has_no_duplicates_conv();
    assert(want.no_duplicates());
    want.lemma_multiset_has_no_duplicates();
    assert forall|x: (nat, Seq<u8>)| sorted.to_multiset().count(x) == #[trigger] want.to_multiset()
        .count(x) by {
        if x.0 < ic.len() && x.1 == ic[x.0 as int] {
            assert(want[x.0 as int] == x);
            assert(want.contains(x));
            assert(read.contains(x));
        } else {
            assert(!read.contains(x));
            assert(!want.contains(x));
        }
    }
    assert(sorted.to_multiset() =~= want.to_multiset());
    lemma_same_items(sorted, want);
    lemma_same_items(sorted, read);
    assert forall|j: int| 0 <= j < sorted.len() implies (#[trigger] sorted[j]).0 < ic.len()
        && sorted[j].1 == ic[sorted[j].0 as int] by {
        assert(sorted.contains(sorted[j]));
        assert(read.contains(sorted[j]));
    }
    assert forall|j: int, k: int| 0 <= j < k < sorted.len() implies (#[trigger] sorted[j]).0 < (
    #[trigger] sorted[k]).0 by {
        assert(sorted[j] != sorted[k]);
    }
    assert forall|i: int| 0 <= i < sorted.len() implies sorted[i] == want[i] by {
        lemma_all_numbers(sorted, i);
    }
    assert(sorted =~= want);
}

/// **Published keys read back.** A text whose lines are those that publish a
/// verifying key, in any order, with blank lines, `#` comments and spaces
/// around the lines, is read as the key.
pub proof fn lemma_key_text_roundtrip(text: Seq<char>, vk: VerificationKeyBytes)
    requires
        said_lines(lines_of(text), lines_of(text).len()).to_multiset() == key_lines(
            vk@,
        ).to_multiset(),
    ensures
        parsed_key(text) == Ok::<KeyParts, Seq<char>>(vk@),
{
    broadcast use vstd::seq_lib::group_to_multiset_ensures;
    broadcast use vstd::multiset::group_multiset_axioms;

    let said = said_lines(lines_of(text), lines_of(text).len());
    let all = key_lines(vk@);
    lemma_folded(lines_of(text), lines_of(text).len());
    lemma_key_lines_differ(vk@);
    all.lemma_multiset_has_no_duplicates();
    said.lemma_multiset_has_no_duplicates_conv();
    lemma_same_items(said, all);
    assert forall|j: int| 0 <= j < said.len() implies all.contains(#[trigger] said[j]) by {
        assert(said.contains(said[j]));
    }
    assert(vk.ic.len() <= usize::MAX);
    lemma_gives(vk@, said);
    let read = folded(said)->Ok_0;
    assert forall|i: int| 0 <= i < all.len() implies said.contains(#[trigger] all[i]) by {
        assert(all.contains(all[i]));
    }
    assert(all.len() == 4 + vk@.ic.len());
    lemma_ic_restored(read.ic, vk@.ic);
    let ic = by_number(read.ic);
    lemma_first_missized(ic, ic.len());
    assert(assembled(read)->Ok_0 =~= vk@);
}

/// A published line stands as it is.
proof fn lemma_key_line_plain(vk: KeyParts, i: int)
    requires
        0 <= i < key_fields(vk).len(),
    ensures
        is_tight(key_lines(vk)[i]),
        !is_remark(key_lines(vk)[i]),
{
    lemma_key_field(vk, i);
    if i >= 4 {
        lemma_key_initials();
        lemma_numbered_plain("ic."@, vk.ic, i - 4);
    } else {
        reveal_strlit("alpha");
        reveal_strlit("beta");
        reveal_strlit("gamma");
        reveal_strlit("delta");
        lemma_hex_plain(vk.alpha);
        lemma_hex_plain(vk.beta);
        lemma_hex_plain(vk.gamma);
        lemma_hex_plain(vk.delta);
        lemma_plain(key_fields(vk)[i].0, key_fields(vk)[i].1);
    }
}

proof fn lemma_all_said(vk: KeyParts, n: nat)
    requires
        n <= key_lines(vk).len(),
    ensures
        said_lines(key_lines(vk), n) == key_lines(vk).take(n as int),
    decreases n,
{
    let all = key_lines(vk);
    if n > 0 {
        lemma_all_said(vk, (n - 1) as nat);
        lemma_key_line_plain(vk, n - 1);
        lemma_trim_tight(all[n - 1]);
        assert(all.take(n - 1).push(all[n - 1]) =~= all.take(n as int));
    } else {
        assert(all.take(0) =~= Seq::<Seq<char>>::empty());
    }
}

/// **Parsing undoes rendering.** The text that publishes a verifying key is
/// read as the key.
pub proof fn lemma_rendered_key_roundtrip(vk: VerificationKeyBytes)
    ensures
        parsed_key(key_text(vk@)) == Ok::<KeyParts, Seq<char>>(vk@),
{
    let all = key_lines(vk@);
    assert forall|i: int| 0 <= i < all.len() implies is_tight(#[trigger] all[i]) by {
        lemma_key_line_plain(vk@, i);
    }
    lemma_lines_written(all);
    lemma_all_said(vk@, all.len());
    assert(all.take(all.len() as int) =~= all);
    lemma_key_text_roundtrip(key_text(vk@), vk);
}

/// **Verifying keys round-trip.** Encoding the key that bytes name gives the
/// bytes back, if each of its points is in the encoding of the point it names.
pub proof fn lemma_key_roundtrip(
    bytes: VerificationKeyBytes,
    vk: VerifyingKey,
    again: VerificationKeyBytes,
)
    requires
        bytes.alpha@ == g1_encoding(g1_named(bytes.alpha@)),
        bytes.beta@ == g2_encoding(g2_named(bytes.beta@)),
        bytes.gamma@ == g2_encoding(g2_named(bytes.gamma@)),
        bytes.delta@ == g2_encoding(g2_named(bytes.delta@)),
        forall|i: int|
            0 <= i < bytes.ic@.len() ==> (#[trigger] bytes.ic@[i])@ == g1_encoding(
                g1_named(bytes.ic@[i]@),
            ),
        bytes.names(vk),
        again.encodes(vk),
    ensures
        again@ == bytes@,
{
    assert forall|i: int| 0 <= i < bytes.ic@.len() implies again@.ic[i] == bytes@.ic[i] by {
        assert(vk.gamma_abc_g1@[i]@ == g1_named(bytes.ic@[i]@));
        assert(again.ic@[i]@ == g1_encoding(vk.gamma_abc_g1@[i]@));
        assert(bytes.ic@[i]@ == g1_encoding(g1_named(bytes.ic@[i]@)));
    }
    assert(again@ =~= bytes@);
}

} // verus!
