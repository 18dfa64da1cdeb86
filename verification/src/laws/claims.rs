//! Laws of claims, and of what binds a statement to them.

use crate::bytes::be_nat;
use crate::field::fr_modulus;
use crate::host::{
    address_binding, amount_to_field, binding, claim_to_xdr, sha256_of, symbol_bytes_xdr,
    symbol_i128_xdr, symbol_u32_xdr, symbol_xdr, truncate_to_field, u64_to_field,
};
use crate::interfaces::fr::is_canonical;
use crate::interfaces::{Address, ClaimType, Invocation};
use vstd::prelude::*;

verus! {

/// The claims are of one variant.
pub open spec fn same_variant(a: ClaimType, b: ClaimType) -> bool {
    ||| a is KycLevel && b is KycLevel
    ||| a is Jurisdiction && b is Jurisdiction
    ||| a is IncomeAbove && b is IncomeAbove
    ||| a is Accredited && b is Accredited
}

/// The names of the claim kinds.
proof fn lemma_names_differ()
    ensures
        "kyc_level"@ != "jurisdiction"@,
        "kyc_level"@ != "income_above"@,
        "kyc_level"@ != "accredited"@,
        "jurisdiction"@ != "income_above"@,
        "jurisdiction"@ != "accredited"@,
        "income_above"@ != "accredited"@,
{
    reveal_strlit("kyc_level");
    reveal_strlit("jurisdiction");
    reveal_strlit("income_above");
    reveal_strlit("accredited");
    assert("kyc_level"@[0] == 'k');
    assert("jurisdiction"@[0] == 'j');
    assert("income_above"@[0] == 'i');
    assert("accredited"@[0] == 'a');
}

/// **Each claim kind has its own name.** Claims share the name of their kind if
/// and only if they are of one variant, whatever their parameters.
pub proof fn lemma_kinds(a: &ClaimType, kind_a: &'static str, b: &ClaimType, kind_b: &'static str)
    requires
        call_ensures(ClaimType::kind, (a,), kind_a),
        call_ensures(ClaimType::kind, (b,), kind_b),
    ensures
        kind_a@ == kind_b@ <==> same_variant(*a, *b),
        a is KycLevel <==> kind_a@ == "kyc_level"@,
        a is Jurisdiction <==> kind_a@ == "jurisdiction"@,
        a is IncomeAbove <==> kind_a@ == "income_above"@,
        a is Accredited <==> kind_a@ == "accredited"@,
{
    lemma_names_differ();
}

/// **Claims are told apart.** Two claims are the same if and only if they are
/// of one variant and have the same parameter.
pub proof fn lemma_same_claim(a: &ClaimType, b: &ClaimType, same: bool)
    requires
        call_ensures(ClaimType::same, (a, b), same),
    ensures
        same ==> same_variant(*a, *b),
        a is Accredited && b is Accredited ==> same,
        a matches ClaimType::KycLevel(x) ==> b matches ClaimType::KycLevel(y) ==> same == (x == y),
        a matches ClaimType::Jurisdiction(x) ==> b matches ClaimType::Jurisdiction(y) ==> same == (x
            == y),
        a matches ClaimType::IncomeAbove(x) ==> b matches ClaimType::IncomeAbove(y) ==> same == (x
            == y),
{
}

/// **A claim is written with its parameter.** Its XDR is that of its name and
/// its own parameter.
pub proof fn lemma_claim_xdr(env: &soroban_sdk::Env, claim: &ClaimType, xdr: Vec<u8>)
    requires
        call_ensures(claim_to_xdr, (env, claim), xdr),
    ensures
        claim matches ClaimType::KycLevel(level) ==> xdr@ == symbol_u32_xdr("KycLevel"@, *level),
        claim matches ClaimType::Jurisdiction(set) ==> xdr@ == symbol_bytes_xdr(
            "Jurisdiction"@,
            set@,
        ),
        claim matches ClaimType::IncomeAbove(threshold) ==> xdr@ == symbol_i128_xdr(
            "IncomeAbove"@,
            *threshold,
        ),
        claim is Accredited ==> xdr@ == symbol_xdr("Accredited"@),
{
}

/// **Bindings are truncated digests.** A binding is the SHA-256 digest of the
/// data, with its first byte zero and the others as they are; data longer than
/// the host takes, and no other, has none. An address is bound by its bytes.
pub proof fn lemma_bindings(
    env: &soroban_sdk::Env,
    data: &Vec<u8>,
    bound: Option<[u8; 32]>,
    address: &Address,
    address_bound: Option<[u8; 32]>,
    digest: [u8; 32],
    truncated: [u8; 32],
)
    requires
        call_ensures(binding, (env, data), bound),
        call_ensures(address_binding, (env, address), address_bound),
        call_ensures(truncate_to_field, (digest,), truncated),
    ensures
        bound is None <==> data@.len() > u32::MAX,
        bound matches Some(b) ==> b@ == sha256_of(data@).update(0, 0u8) && be_nat(b@)
            < fr_modulus(),
        address.xdr@ == data@ ==> match (bound, address_bound) {
            (Some(a), Some(b)) => a@ == b@,
            (None, None) => true,
            _ => false,
        },
        truncated[0] == 0,
        forall|i: int| 1 <= i < 32 ==> #[trigger] truncated[i] == digest[i],
        be_nat(truncated@) < fr_modulus(),
{
    assert forall|i: int| 1 <= i < 32 implies #[trigger] truncated[i] == digest[i] by {
        assert(truncated@[i] == digest@.update(0, 0u8)[i]);
    }
    assert(truncated@[0] == digest@.update(0, 0u8)[0]);
}

/// **Amounts and times are written big-endian.** The 32 bytes spell the number
/// itself, whatever its size.
pub proof fn lemma_numbers_written(amount: i128, a: [u8; 32], time: u64, t: [u8; 32])
    requires
        call_ensures(amount_to_field, (amount,), a),
        call_ensures(u64_to_field, (time,), t),
        amount >= 0,
    ensures
        be_nat(a@) == amount,
        be_nat(t@) == time,
{
}

/// **Canonical encodings.** An encoding is canonical if and only if it spells a
/// number below the order of the field.
pub proof fn lemma_canonical(bytes: &[u8; 32], canonical: bool)
    requires
        call_ensures(is_canonical, (bytes,), canonical),
    ensures
        canonical <==> be_nat(bytes@)
            < 0x73eda753299d7d483339d80809a1d80553bda402fffe5bfeffffffff00000001nat,
{
}

/// **Authorization.** A call is authorized by the addresses among its signers,
/// at any place, and by no others.
pub proof fn lemma_signed(call: &Invocation, address: &Address, signed: bool, place: int)
    requires
        call_ensures(Invocation::is_signed_by, (call, address), signed),
    ensures
        0 <= place < call.signers@.len() && call.signers@[place]@ == address@ ==> signed,
        signed ==> exists|i: int|
            0 <= i < call.signers@.len() && (#[trigger] call.signers@[i])@ == address@,
{
}

} // verus!
