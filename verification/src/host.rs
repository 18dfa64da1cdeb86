//! What the contracts take from the Soroban host: hashing, XDR, and the field
//! elements that bind a statement to ledger data.

use crate::bytes::{
    be_nat, lemma_be_bytes_unique, lemma_be_concat, lemma_be_leading_zeros, lemma_be_prefix_bound,
    lemma_be_word, lemma_pow256_sizes, pow256, word_nat, word_to_be,
};
use crate::encoding::fr_encoding;
use crate::interfaces::fr::canonical_scalar;
use crate::interfaces::{Address, ClaimType};
use soroban_sdk::xdr::ToXdr;
use soroban_sdk::{Bytes, BytesN, Env, Symbol};
use vstd::prelude::*;

verus! {

/// The Soroban host environment.
#[verifier::external_type_specification]
#[verifier::external_body]
pub struct ExEnv(soroban_sdk::Env);

/// The SHA-256 digest of a byte string.
pub uninterp spec fn sha256_of(data: Seq<u8>) -> Seq<u8>;

/// The XDR of a list that holds a symbol.
pub uninterp spec fn symbol_xdr(name: Seq<char>) -> Seq<u8>;

/// The XDR of a list that holds a symbol and a 32-bit unsigned integer.
pub uninterp spec fn symbol_u32_xdr(name: Seq<char>, value: u32) -> Seq<u8>;

/// The XDR of a list that holds a symbol and a 128-bit signed integer.
pub uninterp spec fn symbol_i128_xdr(name: Seq<char>, value: i128) -> Seq<u8>;

/// The XDR of a list that holds a symbol and 32 bytes.
pub uninterp spec fn symbol_bytes_xdr(name: Seq<char>, value: Seq<u8>) -> Seq<u8>;

/// A string that is a symbol: up to 32 letters, digits and underscores.
pub open spec fn is_symbol(name: Seq<char>) -> bool {
    &&& name.len() <= 32
    &&& forall|i: int|
        0 <= i < name.len() ==> {
            let c = #[trigger] name[i];
            ('a' <= c && c <= 'z') || ('A' <= c && c <= 'Z') || ('0' <= c && c <= '9') || c == '_'
        }
}

/// `Crypto::sha256` of the host, which is not metered here: the budget of `env`
/// is lifted first. Its result is named [`sha256_of`] of the data, and is 32
/// bytes long.
#[verifier::external_body]
fn host_sha256(env: &Env, data: &Vec<u8>) -> (digest: [u8; 32])
    requires
        data@.len() <= u32::MAX,
    ensures
        digest@ == sha256_of(data@),
{
    env.cost_estimate().budget().reset_unlimited();
    env.crypto().sha256(&Bytes::from_slice(env, data)).to_array()
}

/// `ToXdr::to_xdr` of the one-element tuple of a symbol, with the
/// budget of `env` lifted first. Its result is named [`symbol_xdr`] of the
/// symbol.
#[verifier::external_body]
fn host_symbol_xdr(env: &Env, name: &str) -> (xdr: Vec<u8>)
    requires
        is_symbol(name@),
    ensures
        xdr@ == symbol_xdr(name@),
{
    env.cost_estimate().budget().reset_unlimited();
    (Symbol::new(env, name),).to_xdr(env).iter().collect()
}

/// `ToXdr::to_xdr` of the tuple of a symbol and a `u32`, with the
/// budget of `env` lifted first. Its result is named [`symbol_u32_xdr`] of the
/// two.
#[verifier::external_body]
fn host_symbol_u32_xdr(env: &Env, name: &str, value: u32) -> (xdr: Vec<u8>)
    requires
        is_symbol(name@),
    ensures
        xdr@ == symbol_u32_xdr(name@, value),
{
    env.cost_estimate().budget().reset_unlimited();
    (Symbol::new(env, name), value).to_xdr(env).iter().collect()
}

/// `ToXdr::to_xdr` of the tuple of a symbol and an `i128`, with the
/// budget of `env` lifted first. Its result is named [`symbol_i128_xdr`] of the
/// two.
#[verifier::external_body]
fn host_symbol_i128_xdr(env: &Env, name: &str, value: i128) -> (xdr: Vec<u8>)
    requires
        is_symbol(name@),
    ensures
        xdr@ == symbol_i128_xdr(name@, value),
{
    env.cost_estimate().budget().reset_unlimited();
    (Symbol::new(env, name), value).to_xdr(env).iter().collect()
}

/// `ToXdr::to_xdr` of the tuple of a symbol and 32 bytes, with the
/// budget of `env` lifted first. Its result is named [`symbol_bytes_xdr`] of the
/// two.
#[verifier::external_body]
fn host_symbol_bytes_xdr(env: &Env, name: &str, value: &[u8; 32]) -> (xdr: Vec<u8>)
    requires
        is_symbol(name@),
    ensures
        xdr@ == symbol_bytes_xdr(name@, value@),
{
    env.cost_estimate().budget().reset_unlimited();
    (Symbol::new(env, name), BytesN::from_array(env, value)).to_xdr(env).iter().collect()
}

/// The XDR of a claim: a list of its name and its parameter, if it has one.
pub open spec fn claim_xdr(claim: ClaimType) -> Seq<u8> {
    match claim {
        ClaimType::KycLevel(level) => symbol_u32_xdr("KycLevel"@, level),
        ClaimType::Jurisdiction(set) => symbol_bytes_xdr("Jurisdiction"@, set@),
        ClaimType::IncomeAbove(threshold) => symbol_i128_xdr("IncomeAbove"@, threshold),
        ClaimType::Accredited => symbol_xdr("Accredited"@),
    }
}

/// The XDR of a claim.
pub fn claim_to_xdr(env: &Env, claim: &ClaimType) -> (xdr: Vec<u8>)
    ensures
        xdr@ == claim_xdr(*claim),
{
    proof {
        reveal_strlit("KycLevel");
        reveal_strlit("Jurisdiction");
        reveal_strlit("IncomeAbove");
        reveal_strlit("Accredited");
    }
    match claim {
        ClaimType::KycLevel(level) => host_symbol_u32_xdr(env, "KycLevel", *level),
        ClaimType::Jurisdiction(set) => host_symbol_bytes_xdr(env, "Jurisdiction", set),
        ClaimType::IncomeAbove(threshold) => host_symbol_i128_xdr(env, "IncomeAbove", *threshold),
        ClaimType::Accredited => host_symbol_xdr(env, "Accredited"),
    }
}

/// The field element that binds a statement to data: the SHA-256 digest with
/// the top byte cleared, so that it is canonical.
pub open spec fn binding_of(data: Seq<u8>) -> Seq<u8> {
    sha256_of(data).update(0, 0u8)
}

/// Clears the top byte of a digest, so that it is a canonical scalar.
pub fn truncate_to_field(bytes: [u8; 32]) -> (out: [u8; 32])
    ensures
        out@ == bytes@.update(0, 0u8),
        canonical_scalar(out@),
{
    let mut out: [u8; 32] = bytes;
    out[0] = 0;
    proof {
        assert(out@ =~= bytes@.update(0, 0u8));
        lemma_cleared_is_canonical(out@);
    }
    out
}

/// **Bindings are canonical.** 32 bytes with a zero first byte spell a number
/// below the group order.
pub proof fn lemma_cleared_is_canonical(bytes: Seq<u8>)
    requires
        bytes.len() == 32,
        bytes[0] == 0,
    ensures
        canonical_scalar(bytes),
{
    let head = bytes.subrange(0, 1);
    let tail = bytes.subrange(1, 32);
    assert(bytes =~= head + tail);
    lemma_be_concat(head, tail);
    lemma_be_prefix_bound(tail, 31);
    lemma_pow256_sizes();
    lemma_be_leading_zeros(head, 1);
    assert(be_nat(head) * pow256(31) == 0) by (nonlinear_arith)
        requires
            be_nat(head) == 0,
    ;
}

/// The field element that binds a statement to data, or nothing where the
/// data is longer than the host's byte strings can be.
pub fn binding(env: &Env, data: &Vec<u8>) -> (out: Option<[u8; 32]>)
    ensures
        out is None == (data@.len() > u32::MAX),
        out matches Some(bytes) ==> bytes@ == binding_of(data@) && canonical_scalar(bytes@),
{
    if data.len() as u64 > u32::MAX as u64 {
        return None;
    }
    Some(truncate_to_field(host_sha256(env, data)))
}

/// Binds a statement to an address: SHA-256 of the address XDR with the top
/// byte cleared.
pub fn address_binding(env: &Env, address: &Address) -> (out: Option<[u8; 32]>)
    ensures
        out is None == (address@.len() > u32::MAX),
        out matches Some(bytes) ==> bytes@ == binding_of(address@) && canonical_scalar(bytes@),
{
    binding(env, &address.xdr)
}

/// 32 bytes that end in two words, behind zeros, spell the number of the
/// words.
proof fn lemma_two_words(bytes: Seq<u8>)
    requires
        bytes.len() == 32,
        forall|i: int| 0 <= i < 16 ==> bytes[i] == 0,
    ensures
        be_nat(bytes) == word_nat(bytes, 16) * 0x1_0000_0000_0000_0000 + word_nat(bytes, 24),
{
    lemma_be_leading_zeros(bytes, 16);
    lemma_be_word(bytes, 16);
    lemma_be_word(bytes, 24);
}

/// Encodes an integer as a big-endian field element.
pub fn u128_to_field(value: u128) -> (out: [u8; 32])
    ensures
        be_nat(out@) == value,
        canonical_scalar(out@),
{
    let high: u64 = (value / 0x1_0000_0000_0000_0000) as u64;
    let low: u64 = (value % 0x1_0000_0000_0000_0000) as u64;
    let h: [u8; 8] = word_to_be(high);
    let l: [u8; 8] = word_to_be(low);
    let mut out: [u8; 32] = [0u8; 32];
    let mut i: usize = 0;
    while i < 8
        invariant
            i <= 8,
            forall|k: int| 0 <= k < 16 ==> out[k] == 0,
            forall|k: int| 0 <= k < i ==> out[16 + k] == h[k],
            forall|k: int| 0 <= k < i ==> out[24 + k] == l[k],
        decreases 8 - i,
    {
        out[16 + i] = h[i];
        out[24 + i] = l[i];
        i = i + 1;
    }
    proof {
        lemma_two_words(out@);
        assert(word_nat(out@, 16) == word_nat(h@, 0));
        assert(word_nat(out@, 24) == word_nat(l@, 0));
        lemma_cleared_is_canonical(out@);
    }
    out
}

/// Encodes a token amount as a big-endian field element.
pub fn amount_to_field(amount: i128) -> (out: [u8; 32])
    requires
        amount >= 0,
    ensures
        be_nat(out@) == amount,
        out@ == fr_encoding(amount as nat),
        canonical_scalar(out@),
{
    let out: [u8; 32] = u128_to_field(amount as u128);
    proof {
        lemma_be_bytes_unique(out@);
    }
    out
}

/// Encodes a timestamp as a big-endian field element.
pub fn u64_to_field(value: u64) -> (out: [u8; 32])
    ensures
        be_nat(out@) == value,
        out@ == fr_encoding(value as nat),
        canonical_scalar(out@),
{
    let out: [u8; 32] = u128_to_field(value as u128);
    proof {
        lemma_be_bytes_unique(out@);
    }
    out
}

} // verus!
