//! Laws of the offline check: statements, proofs and keys.

use crate::artifacts::{
    by_number, first_missized, lemma_ic_in_order, parse_vk_hex, placed, proving_key,
    proving_key_read, vk_from_bytes, with_line, with_lines, ProvingKey,
};
use crate::cli::args::{parsed_fr, parsed_number};
use crate::cli::bundle::Bundle;
use crate::cli::verify::{
    bundle_proof, checked_g1, checked_g2, reencoded, scalars_of, statement, transfer_keys,
    verify_bundle, withdraw_keys,
};
use crate::curve::{
    g1_in_subgroup, g1_on_curve, g2_in_subgroup, g2_on_curve, G1Affine, G1Point, G2Affine, G2Point,
};
use crate::encoding::{
    g1_encoding, g1_from_bytes, g2_from_bytes, proof_to_bytes, vk_to_bytes, KeyParts, Proof,
    ProofBytes, VerificationKeyBytes, VerifyingKey,
};
use crate::field::Fr;
use crate::hex_codec::{decode, hex_decoded, hex_fault_name, hex_fault_text, HexFault};
use crate::interfaces::{Groth16Proof, VerificationKey};
use crate::laws::files::{key_in, line_at, says, value_in};
use crate::laws::texts::lacks;
use crate::laws::verifying::equation_holds;
use crate::text::{decimal, lines_of, parsed_int};
use vstd::prelude::*;
use vstd::utf8::encode_utf8;

verus! {

/// The field element under a key, or what is wrong: it is missing, or it is not
/// one.
pub open spec fn element_at(m: Map<Seq<char>, Seq<char>>, key: Seq<char>) -> Result<
    nat,
    Seq<char>,
> {
    if !m.dom().contains(key) {
        Err("bundle is missing "@ + key)
    } else {
        parsed_fr(m[key])
    }
}

/// The elements under some keys are all there; or the first fault is told.
pub open spec fn elements_read(
    m: Map<Seq<char>, Seq<char>>,
    keys: Seq<Seq<char>>,
    got: Result<Seq<nat>, Seq<char>>,
) -> bool {
    &&& got matches Ok(xs) ==> xs.len() == keys.len() && forall|i: int|
        0 <= i < keys.len() ==> element_at(m, #[trigger] keys[i]) == Ok::<nat, Seq<char>>(xs[i])
    &&& got matches Err(e) ==> exists|k: int|
        {
            &&& 0 <= k < keys.len()
            &&& element_at(m, #[trigger] keys[k]) == Err::<nat, Seq<char>>(e)
            &&& forall|i: int| 0 <= i < k ==> element_at(m, #[trigger] keys[i]) is Ok
        }
}

proof fn lemma_elements(m: Map<Seq<char>, Seq<char>>, keys: Seq<Seq<char>>, n: nat)
    requires
        n <= keys.len(),
    ensures
        elements_read(m, keys.take(n as int), scalars_of(m, keys, n)),
    decreases n,
{
    if n > 0 {
        let k = (n - 1) as nat;
        lemma_elements(m, keys, k);
        let (before, now) = (keys.take(k as int), keys.take(n as int));
        assert(forall|i: int| 0 <= i < k ==> #[trigger] now[i] == before[i]);
        assert(now[k as int] == keys[k as int]);
        match scalars_of(m, keys, k) {
            Err(e) => {
                let j = choose|j: int|
                    {
                        &&& 0 <= j < before.len()
                        &&& element_at(m, #[trigger] before[j]) == Err::<nat, Seq<char>>(e)
                        &&& forall|i: int| 0 <= i < j ==> element_at(m, #[trigger] before[i]) is Ok
                    };
                assert(element_at(m, now[j]) == Err::<nat, Seq<char>>(e));
                assert forall|i: int| 0 <= i < j implies element_at(m, #[trigger] now[i]) is Ok by {
                    assert(element_at(m, before[i]) is Ok);
                }
            },
            Ok(xs) => {
                assert forall|i: int| 0 <= i < k implies element_at(m, #[trigger] now[i]) == Ok::<
                    nat,
                    Seq<char>,
                >(xs[i]) by {
                    assert(element_at(m, before[i]) == Ok::<nat, Seq<char>>(xs[i]));
                }
                if element_at(m, keys[k as int]) is Err {
                    assert(element_at(m, now[k as int]) is Err);
                }
            },
        }
    }
}

/// **Statements.** A transfer's statement is its root, its two nullifiers and
/// its two new commitments; a withdrawal's is its root, its nullifier, its
/// recipient and its amount; each is read from the field with its key, in this
/// order, and the first fault is told. No other circuit has a statement.
#[verifier::rlimit(40)]
pub proof fn lemma_statement(
    bundle: &Bundle,
    stated: Result<(String, Vec<Fr>), String>,
    got: Result<Seq<nat>, Seq<char>>,
)
    requires
        call_ensures(statement, (bundle,), stated),
        bundle@.dom().contains("circuit"@) && bundle@["circuit"@] == "transfer"@ ==> got
            == scalars_of(bundle@, transfer_keys(), 5),
        bundle@.dom().contains("circuit"@) && bundle@["circuit"@] == "withdraw"@ ==> got
            == scalars_of(bundle@, withdraw_keys(), 3),
    ensures
        "transfer"@ != "withdraw"@,
        !bundle@.dom().contains("circuit"@) ==> (stated matches Err(e) && e@
            == "bundle is missing circuit"@),
        bundle@.dom().contains("circuit"@) && bundle@["circuit"@] == "transfer"@ ==> {
            &&& elements_read(
                bundle@,
                seq![
                    "root"@,
                    "nullifier.0"@,
                    "nullifier.1"@,
                    "new_commitment.0"@,
                    "new_commitment.1"@,
                ],
                got,
            )
            &&& match got {
                Err(e) => stated matches Err(f) && f@ == e,
                Ok(xs) => stated matches Ok((circuit, inputs)) && circuit@ == "transfer"@
                    && inputs@.len() == 5 && forall|i: int|
                    0 <= i < 5 ==> (#[trigger] inputs@[i]).value() == xs[i],
            }
        },
        bundle@.dom().contains("circuit"@) && bundle@["circuit"@] == "withdraw"@ ==> {
            &&& elements_read(bundle@, seq!["root"@, "nullifier"@, "recipient_binding"@], got)
            &&& match got {
                Err(e) => stated matches Err(f) && f@ == e,
                Ok(xs) => if !bundle@.dom().contains("amount"@) {
                    stated matches Err(f) && f@ == "bundle is missing amount"@
                } else {
                    match parsed_number("amount"@, bundle@["amount"@]) {
                        Err(e) => stated matches Err(f) && f@ == e,
                        Ok(amount) => stated matches Ok((circuit, inputs)) && circuit@
                            == "withdraw"@ && inputs@.len() == 4 && inputs@[3].value() == amount
                            && forall|i: int|
                            0 <= i < 3 ==> (#[trigger] inputs@[i]).value() == xs[i],
                    }
                },
            }
        },
        bundle@.dom().contains("circuit"@) && bundle@["circuit"@] != "transfer"@
            && bundle@["circuit"@] != "withdraw"@ ==> match element_at(bundle@, "root"@) {
            Err(e) => stated matches Err(f) && f@ == e,
            Ok(_) => stated matches Err(f) && f@ == "unknown bundle circuit: "@
                + bundle@["circuit"@],
        },
{
    reveal_strlit("transfer");
    reveal_strlit("withdraw");
    assert("transfer"@[0] != "withdraw"@[0]);
    reveal_strlit("circuit");
    reveal_strlit("amount");
    reveal_strlit("bundle is missing ");
    reveal_strlit("bundle is missing circuit");
    reveal_strlit("bundle is missing amount");
    assert("bundle is missing "@ + "circuit"@ =~= "bundle is missing circuit"@);
    assert("bundle is missing "@ + "amount"@ =~= "bundle is missing amount"@);
    lemma_elements(bundle@, transfer_keys(), 5);
    lemma_elements(bundle@, withdraw_keys(), 3);
    assert(transfer_keys().take(5) =~= seq![
        "root"@,
        "nullifier.0"@,
        "nullifier.1"@,
        "new_commitment.0"@,
        "new_commitment.1"@,
    ]);
    assert(withdraw_keys().take(3) =~= seq!["root"@, "nullifier"@, "recipient_binding"@]);
    if let Ok((circuit, inputs)) = stated {
        let vals = crate::circuit::values(inputs@);
        assert(vals.len() == inputs@.len());
        assert(forall|i: int|
            0 <= i < inputs@.len() ==> (#[trigger] inputs@[i]).value() == vals[i]);
    }
}

/// A point of the G1 curve, in its subgroup.
pub open spec fn good_g1(p: G1Point) -> bool {
    g1_on_curve(p) && g1_in_subgroup(p.x, p.y, p.infinity)
}

/// A point of the G2 curve, in its subgroup.
pub open spec fn good_g2(p: G2Point) -> bool {
    g2_on_curve(p) && g2_in_subgroup((p.x0, p.x1), (p.y0, p.y1), p.infinity)
}

/// **Points of a bundle** are taken if and only if they are hexadecimal, of the
/// right length, on the curve and in the subgroup, checked in this order.
pub proof fn lemma_points_checked(
    text: &str,
    name: &str,
    decoded: Result<Vec<u8>, HexFault>,
    fault: HexFault,
    fault_text: Vec<char>,
    g1_bytes: &[u8; 96],
    named_g1: G1Affine,
    g1: Result<G1Affine, String>,
    g2_bytes: &[u8; 192],
    named_g2: G2Affine,
    g2: Result<G2Affine, String>,
)
    requires
        call_ensures(decode, (text,), decoded),
        decoded matches Err(e) ==> fault == e,
        call_ensures(hex_fault_name, (&fault,), fault_text),
        decoded is Ok && (decoded->Ok_0)@.len() == 96 ==> g1_bytes@ == (decoded->Ok_0)@,
        call_ensures(g1_from_bytes, (g1_bytes,), named_g1),
        decoded is Ok && (decoded->Ok_0)@.len() == 192 ==> g2_bytes@ == (decoded->Ok_0)@,
        call_ensures(g2_from_bytes, (g2_bytes,), named_g2),
        call_ensures(checked_g1, (text, name), g1),
        call_ensures(checked_g2, (text, name), g2),
    ensures
        match decoded {
            Err(_) => {
                &&& g1 matches Err(e) && e@ == name@ + ": "@ + fault_text@
                &&& g2 matches Err(e) && e@ == name@ + ": "@ + fault_text@
            },
            Ok(bytes) => {
                &&& if bytes@.len() != 96 {
                    g1 matches Err(e) && e@ == name@ + ": expected 96 bytes"@
                } else if !good_g1(named_g1@) {
                    g1 matches Err(e) && e@ == name@ + ": not a valid G1 point"@
                } else {
                    g1 matches Ok(p) && p@ == named_g1@
                }
                &&& if bytes@.len() != 192 {
                    g2 matches Err(e) && e@ == name@ + ": expected 192 bytes"@
                } else if !good_g2(named_g2@) {
                    g2 matches Err(e) && e@ == name@ + ": not a valid G2 point"@
                } else {
                    g2 matches Ok(p) && p@ == named_g2@
                }
            },
        },
{
}

/// **The proof of a bundle** is the points under its three keys; the first
/// fault is told.
pub proof fn lemma_bundle_proof(
    bundle: &Bundle,
    a_text: &str,
    a: Result<G1Affine, String>,
    b_text: &str,
    b: Result<G2Affine, String>,
    c_text: &str,
    c: Result<G1Affine, String>,
    found: Result<Proof, String>,
)
    requires
        call_ensures(bundle_proof, (bundle,), found),
        bundle@.dom().contains("proof.a"@) ==> a_text@ == bundle@["proof.a"@],
        call_ensures(checked_g1, (a_text, "proof.a"), a),
        bundle@.dom().contains("proof.b"@) ==> b_text@ == bundle@["proof.b"@],
        call_ensures(checked_g2, (b_text, "proof.b"), b),
        bundle@.dom().contains("proof.c"@) ==> c_text@ == bundle@["proof.c"@],
        call_ensures(checked_g1, (c_text, "proof.c"), c),
    ensures
        if !bundle@.dom().contains("proof.a"@) {
            found matches Err(e) && e@ == "bundle is missing "@ + "proof.a"@
        } else if a is Err {
            found matches Err(e) && e@ == (a->Err_0)@
        } else if !bundle@.dom().contains("proof.b"@) {
            found matches Err(e) && e@ == "bundle is missing "@ + "proof.b"@
        } else if b is Err {
            found matches Err(e) && e@ == (b->Err_0)@
        } else if !bundle@.dom().contains("proof.c"@) {
            found matches Err(e) && e@ == "bundle is missing "@ + "proof.c"@
        } else if c is Err {
            found matches Err(e) && e@ == (c->Err_0)@
        } else {
            found matches Ok(p) && p.a@ == (a->Ok_0)@ && p.b@ == (b->Ok_0)@ && p.c@
                == (c->Ok_0)@
        },
{
}

/// Every point of the key is on its curve and in its subgroup.
pub open spec fn good_key(vk: VerifyingKey) -> bool {
    &&& good_g1(vk.alpha_g1@)
    &&& good_g2(vk.beta_g2@)
    &&& good_g2(vk.gamma_g2@)
    &&& good_g2(vk.delta_g2@)
    &&& forall|i: int| 0 <= i < vk.gamma_abc_g1@.len() ==> good_g1((#[trigger] vk.gamma_abc_g1@[i])@)
}

/// **The offline check** passes if and only if the bundle has a statement with
/// one input for each point of the key but the first, its proof's points and
/// the key's points are good, and the Groth16 equation holds of them; what
/// fails first is told.
#[verifier::rlimit(40)]
pub proof fn lemma_offline_check(
    vk: &VerificationKeyBytes,
    bundle: &Bundle,
    key: VerifyingKey,
    again: VerificationKeyBytes,
    stated: Result<(String, Vec<Fr>), String>,
    found: Result<Proof, String>,
    proof: Proof,
    bytes: ProofBytes,
    pinned: VerificationKey,
    submitted: Groth16Proof,
    points: Seq<Seq<u8>>,
    scalars: Seq<nat>,
    report: Result<String, String>,
)
    requires
        call_ensures(verify_bundle, (vk, bundle), report),
        call_ensures(vk_from_bytes, (vk,), key),
        call_ensures(vk_to_bytes, (&key,), again),
        call_ensures(statement, (bundle,), stated),
        call_ensures(bundle_proof, (bundle,), found),
        found matches Ok(p) ==> proof == p,
        call_ensures(proof_to_bytes, (&proof,), bytes),
        pinned.alpha@ == again.alpha@,
        pinned.beta@ == again.beta@,
        pinned.gamma@ == again.gamma@,
        pinned.delta@ == again.delta@,
        submitted.a@ == bytes.a@,
        submitted.b@ == bytes.b@,
        submitted.c@ == bytes.c@,
        points.len() == again.ic@.len(),
        forall|i: int| 0 <= i < points.len() ==> #[trigger] points[i] == again.ic@[i]@,
        scalars.len() > 0 && scalars[0] == 1,
        stated matches Ok((_, inputs)) ==> scalars.len() == inputs@.len() + 1 && forall|i: int|
            0 <= i < inputs@.len() ==> scalars[i + 1] == (#[trigger] inputs@[i]).value(),
    ensures
        match stated {
            Err(e) => report matches Err(f) && f@ == e@,
            Ok((circuit, inputs)) => if vk.ic@.len() == 0 {
                report matches Err(f) && f@ == "vk has no IC points — wrong vk for this circuit?"@
            } else if vk.ic@.len() != inputs@.len() + 1 {
                report matches Err(f) && f@ == "vk expects "@ + decimal((vk.ic@.len() - 1) as nat)
                    + " public inputs, bundle has "@ + decimal(inputs@.len())
                    + " — wrong vk for this circuit?"@
            } else if found is Err {
                report matches Err(f) && f@ == (found->Err_0)@
            } else if !good_key(key) {
                report matches Err(f) && f@
                    == "vk: not a valid key, a point is off-curve or in the wrong subgroup"@
            } else if !equation_holds(pinned, submitted, points, scalars) {
                report matches Err(f) && f@
                    == "proof does NOT verify against this vk and these public inputs"@
            } else {
                report matches Ok(said) && said@ == "OK: "@ + circuit@ + " proof verifies ("@
                    + decimal(inputs@.len()) + " public inputs)"@
            },
        },
{
    let parts = vk@;
    assert(parts.ic.len() == vk.ic@.len());
    assert forall|i: int| 0 <= i < key.gamma_abc_g1@.len() implies (#[trigger]
        key.gamma_abc_g1@[i])@ == crate::encoding::g1_named(parts.ic[i]) by {
        assert(vk.ic@[i]@ == parts.ic[i]);
    }
    assert(crate::cli::verify::key_valid(parts) <==> good_key(key)) by {
        if good_key(key) {
            assert forall|i: int| 0 <= i < parts.ic.len() implies crate::curve::g1_valid(
                crate::encoding::g1_named(#[trigger] parts.ic[i]),
            ) by {
                assert(good_g1(key.gamma_abc_g1@[i]@));
            }
        }
        if crate::cli::verify::key_valid(parts) {
            assert forall|i: int| 0 <= i < key.gamma_abc_g1@.len() implies good_g1(
                (#[trigger] key.gamma_abc_g1@[i])@,
            ) by {
                assert(crate::curve::g1_valid(crate::encoding::g1_named(parts.ic[i])));
            }
        }
    }
    let whole = reencoded(parts);
    assert(points =~= whole.ic) by {
        assert forall|i: int| 0 <= i < points.len() implies points[i] == whole.ic[i] by {
            assert(again.ic@[i]@ == g1_encoding(key.gamma_abc_g1@[i]@));
        }
    }
    if let Ok((circuit, inputs)) = stated {
        let vals = crate::circuit::values(inputs@);
        let said = seq![1nat] + vals;
        assert(scalars =~= said) by {
            assert forall|k: int| 0 <= k < scalars.len() implies scalars[k] == said[k] by {
                if k > 0 {
                    assert(scalars[(k - 1) + 1] == inputs@[k - 1].value());
                }
            }
        }
    }
}

/// **Keys are read point by point**, each from its own place.
pub proof fn lemma_key_read(
    bytes: &VerificationKeyBytes,
    vk: VerifyingKey,
    alpha: G1Affine,
    beta: G2Affine,
    gamma: G2Affine,
    delta: G2Affine,
    i: int,
    ic: G1Affine,
)
    requires
        call_ensures(vk_from_bytes, (bytes,), vk),
        call_ensures(g1_from_bytes, (&bytes.alpha,), alpha),
        call_ensures(g2_from_bytes, (&bytes.beta,), beta),
        call_ensures(g2_from_bytes, (&bytes.gamma,), gamma),
        call_ensures(g2_from_bytes, (&bytes.delta,), delta),
        0 <= i < bytes.ic@.len() ==> call_ensures(g1_from_bytes, (&bytes.ic@[i],), ic),
    ensures
        vk.alpha_g1@ == alpha@,
        vk.beta_g2@ == beta@,
        vk.gamma_g2@ == gamma@,
        vk.delta_g2@ == delta@,
        vk.gamma_abc_g1@.len() == bytes.ic@.len(),
        0 <= i < bytes.ic@.len() ==> vk.gamma_abc_g1@[i]@ == ic@,
{
}

/// The bytes that the last of the first lines with a key gives, if one has it.
pub open spec fn latest(all: Seq<Seq<char>>, n: nat, key: Seq<char>) -> Option<Seq<u8>>
    decreases n,
{
    if n == 0 {
        None
    } else {
        let line = line_at(all, n - 1);
        if says(line) && key_in(line) == key {
            Some(hex_decoded(encode_utf8(value_in(line)))->Ok_0)
        } else {
            latest(all, (n - 1) as nat, key)
        }
    }
}

/// The numbered points that the first lines give, in the order of the lines.
pub open spec fn numbered_points(all: Seq<Seq<char>>, n: nat) -> Seq<(nat, Seq<u8>)>
    decreases n,
{
    if n == 0 {
        Seq::empty()
    } else {
        let line = line_at(all, n - 1);
        let before = numbered_points(all, (n - 1) as nat);
        if says(line) && is_numbered(key_in(line)) {
            before.push(
                (
                    parsed_int(key_in(line).skip(3), usize::MAX as nat)->Ok_0,
                    hex_decoded(encode_utf8(value_in(line)))->Ok_0,
                ),
            )
        } else {
            before
        }
    }
}

/// The key of a numbered point: `ic.` and a number.
pub open spec fn is_numbered(key: Seq<char>) -> bool {
    &&& key.len() >= 3
    &&& key.take(3) == "ic."@
    &&& parsed_int(key.skip(3), usize::MAX as nat) is Ok
}

/// A line of a key file that gives a point.
pub open spec fn gives_point(line: Seq<char>) -> bool {
    let key = key_in(line);
    &&& !lacks(line, '=')
    &&& hex_decoded(encode_utf8(value_in(line))) is Ok
    &&& {
        ||| key == "alpha"@
        ||| key == "beta"@
        ||| key == "gamma"@
        ||| key == "delta"@
        ||| is_numbered(key)
    }
}

/// What is told of a line that gives no point.
pub open spec fn line_fault(line: Seq<char>) -> Seq<char> {
    if lacks(line, '=') {
        "malformed line: "@ + line
    } else if hex_decoded(encode_utf8(value_in(line))) is Err {
        key_in(line) + ": "@ + hex_fault_text(hex_decoded(encode_utf8(value_in(line)))->Err_0)
    } else {
        "unknown key: "@ + key_in(line)
    }
}

proof fn lemma_key_names()
    ensures
        "alpha"@ != "beta"@,
        "alpha"@ != "gamma"@,
        "alpha"@ != "delta"@,
        "beta"@ != "gamma"@,
        "beta"@ != "delta"@,
        "gamma"@ != "delta"@,
        !is_numbered("alpha"@),
        !is_numbered("beta"@),
        !is_numbered("gamma"@),
        !is_numbered("delta"@),
{
    reveal_strlit("alpha");
    reveal_strlit("beta");
    reveal_strlit("gamma");
    reveal_strlit("delta");
    reveal_strlit("ic.");
    assert("alpha"@[0] == 'a' && "beta"@[0] == 'b' && "gamma"@[0] == 'g' && "delta"@[0] == 'd');
    assert("ic."@[0] == 'i');
    assert("alpha"@.take(3)[0] == 'a' && "beta"@.take(3)[0] == 'b');
    assert("gamma"@.take(3)[0] == 'g' && "delta"@.take(3)[0] == 'd');
}

proof fn lemma_numbered_key(key: Seq<char>)
    ensures
        crate::artifacts::ic_number(key) is Some <==> is_numbered(key),
        crate::artifacts::ic_number(key) matches Some(n) ==> parsed_int(
            key.skip(3),
            usize::MAX as nat,
        ) == Ok::<nat, crate::text::IntFault>(n),
{
    reveal_strlit("ic.");
    if "ic."@.is_prefix_of(key) {
        assert(key.take(3) =~= "ic."@);
    }
    if key.len() >= 3 && key.take(3) == "ic."@ {
        assert("ic."@ =~= key.subrange(0, 3));
    }
}

proof fn lemma_key_lines_read(all: Seq<Seq<char>>, n: nat)
    requires
        n <= all.len(),
    ensures
        with_lines(all, n) is Ok <==> forall|k: int|
            0 <= k < n && says(#[trigger] line_at(all, k)) ==> gives_point(line_at(all, k)),
        with_lines(all, n) matches Ok(read) ==> {
            &&& read.alpha == latest(all, n, "alpha"@)
            &&& read.beta == latest(all, n, "beta"@)
            &&& read.gamma == latest(all, n, "gamma"@)
            &&& read.delta == latest(all, n, "delta"@)
            &&& read.ic == numbered_points(all, n)
        },
        with_lines(all, n) matches Err(e) ==> exists|k: int|
            {
                &&& 0 <= k < n
                &&& says(#[trigger] line_at(all, k))
                &&& !gives_point(line_at(all, k))
                &&& e == line_fault(line_at(all, k))
                &&& forall|i: int|
                    0 <= i < k && says(#[trigger] line_at(all, i)) ==> gives_point(line_at(all, i))
            },
    decreases n,
{
    if n > 0 {
        let m = (n - 1) as nat;
        lemma_key_lines_read(all, m);
        lemma_key_names();
        let line = line_at(all, m as int);
        lemma_numbered_key(key_in(line));
        crate::laws::files::lemma_splits(line);
        if let Ok(read) = with_lines(all, m) {
            assert(with_lines(all, n) == with_line(read, line));
            assert(says(line) ==> says(line_at(all, m as int)));
        }
    }
}

/// A point that is there and has its length; otherwise what is told.
pub open spec fn sized_point(
    found: Option<Seq<u8>>,
    len: nat,
    name: Seq<char>,
) -> Result<Seq<u8>, Seq<char>> {
    if found is None {
        Err("missing "@ + name)
    } else if found->0.len() != len {
        Err(name + ": wrong length"@)
    } else {
        Ok(found->0)
    }
}

/// A sorted list of the numbered points: by their numbers.
pub open spec fn is_sorted(list: Seq<(nat, Seq<u8>)>) -> bool {
    forall|i: int, j: int|
        0 <= i < j < list.len() ==> (#[trigger] list[i]).0 <= (#[trigger] list[j]).0
}

proof fn lemma_missized(ic: Seq<(nat, Seq<u8>)>)
    ensures
        first_missized(ic) <= ic.len(),
        forall|i: int| 0 <= i < first_missized(ic) ==> (#[trigger] ic[i]).1.len() == 96,
        first_missized(ic) < ic.len() ==> ic[first_missized(ic) as int].1.len() != 96,
    decreases ic.len(),
{
    if ic.len() > 0 && ic[0].1.len() == 96 {
        lemma_missized(ic.skip(1));
        assert forall|i: int| 0 <= i < first_missized(ic) implies (#[trigger] ic[i]).1.len()
            == 96 by {
            if i > 0 {
                assert(ic.skip(1)[i - 1] == ic[i]);
            }
        }
    }
}

/// The points with a number, in their order.
pub open spec fn with_number(list: Seq<(nat, Seq<u8>)>, number: nat) -> Seq<(nat, Seq<u8>)> {
    list.filter(|entry: (nat, Seq<u8>)| entry.0 == number)
}

proof fn lemma_with_number_pushed(
    list: Seq<(nat, Seq<u8>)>,
    entry: (nat, Seq<u8>),
    number: nat,
)
    ensures
        with_number(list.push(entry), number) == if entry.0 == number {
            with_number(list, number).push(entry)
        } else {
            with_number(list, number)
        },
{
    reveal(Seq::filter);
    assert(list.push(entry).drop_last() =~= list);
}

proof fn lemma_placed_behind(sorted: Seq<(nat, Seq<u8>)>, entry: (nat, Seq<u8>), number: nat)
    ensures
        with_number(placed(sorted, entry), number) == with_number(sorted.push(entry), number),
    decreases sorted.len(),
{
    if !(sorted.len() == 0 || sorted.last().0 <= entry.0) {
        let (before, last) = (sorted.drop_last(), sorted.last());
        lemma_placed_behind(before, entry, number);
        lemma_with_number_pushed(placed(before, entry), last, number);
        lemma_with_number_pushed(before, entry, number);
        lemma_with_number_pushed(before, last, number);
        lemma_with_number_pushed(sorted, entry, number);
        assert(before.push(last) =~= sorted);
    }
}

/// Sorting keeps the order of the points with one number.
proof fn lemma_sorted_in_place(list: Seq<(nat, Seq<u8>)>, number: nat)
    ensures
        with_number(by_number(list), number) == with_number(list, number),
    decreases list.len(),
{
    if list.len() > 0 {
        let (before, last) = (list.drop_last(), list.last());
        lemma_sorted_in_place(before, number);
        lemma_placed_behind(by_number(before), last, number);
        lemma_with_number_pushed(by_number(before), last, number);
        lemma_with_number_pushed(before, last, number);
        assert(before.push(last) =~= list);
    }
}

/// The first of some points that does not have its length is told.
pub open spec fn missized_told(ic: Seq<(nat, Seq<u8>)>, e: Seq<char>) -> bool {
    exists|k: int|
        {
            &&& 0 <= k < ic.len()
            &&& (#[trigger] ic[k]).1.len() != 96
            &&& e == "ic."@ + decimal(ic[k].0) + ": wrong length"@
            &&& forall|i: int| 0 <= i < k ==> (#[trigger] ic[i]).1.len() == 96
        }
}

/// The points of a key are those of a list.
pub open spec fn holds_points(points: Seq<[u8; 96]>, ic: Seq<(nat, Seq<u8>)>) -> bool {
    &&& points.len() == ic.len()
    &&& forall|i: int| 0 <= i < ic.len() ==> (#[trigger] points[i])@ == ic[i].1
}

/// **Key files.** A key is read if and only if each line that is neither blank
/// nor a comment gives a point, the four named points are there with their
/// lengths, and every numbered point has its length. A named point is the one
/// of its last line, and the numbered points come in the order of their
/// numbers, those with one number in the order of their lines. The first fault
/// is told.
#[verifier::rlimit(40)]
pub proof fn lemma_key_file(text: &str, parsed: Result<VerificationKeyBytes, String>)
    requires
        call_ensures(parse_vk_hex, (text,), parsed),
    ensures
        ({
            let all = lines_of(text@);
            let n = all.len();
            let alpha = sized_point(latest(all, n, "alpha"@), 96, "alpha"@);
            let beta = sized_point(latest(all, n, "beta"@), 192, "beta"@);
            let gamma = sized_point(latest(all, n, "gamma"@), 192, "gamma"@);
            let delta = sized_point(latest(all, n, "delta"@), 192, "delta"@);
            if exists|k: int|
                0 <= k < n && says(#[trigger] line_at(all, k)) && !gives_point(line_at(all, k)) {
                exists|k: int|
                    {
                        &&& 0 <= k < n
                        &&& says(#[trigger] line_at(all, k))
                        &&& !gives_point(line_at(all, k))
                        &&& parsed matches Err(e) && e@ == line_fault(line_at(all, k))
                        &&& forall|i: int|
                            0 <= i < k && says(#[trigger] line_at(all, i)) ==> gives_point(
                                line_at(all, i),
                            )
                    }
            } else if alpha is Err {
                parsed matches Err(e) && e@ == alpha->Err_0
            } else if beta is Err {
                parsed matches Err(e) && e@ == beta->Err_0
            } else if gamma is Err {
                parsed matches Err(e) && e@ == gamma->Err_0
            } else if delta is Err {
                parsed matches Err(e) && e@ == delta->Err_0
            } else {
                exists|ic: Seq<(nat, Seq<u8>)>|
                    {
                        &&& #[trigger] is_sorted(ic)
                        &&& ic.to_multiset() == numbered_points(all, n).to_multiset()
                        &&& forall|number: nat| #[trigger]
                            with_number(ic, number) == with_number(
                                numbered_points(all, n),
                                number,
                            )
                        &&& match parsed {
                            Err(e) => missized_told(ic, e@),
                            Ok(vk) => {
                                &&& vk.alpha@ == alpha->Ok_0
                                &&& vk.beta@ == beta->Ok_0
                                &&& vk.gamma@ == gamma->Ok_0
                                &&& vk.delta@ == delta->Ok_0
                                &&& holds_points(vk.ic@, ic)
                            },
                        }
                    }
            }
        }),
{
    let all = lines_of(text@);
    let n = all.len();
    lemma_key_lines_read(all, n);
    let points = numbered_points(all, n);
    let ic = by_number(points);
    lemma_ic_in_order(points);
    lemma_missized(ic);
    assert(is_sorted(ic));
    assert forall|number: nat| #[trigger]
        with_number(ic, number) == with_number(points, number) by {
        lemma_sorted_in_place(points, number);
    }
    if let Ok(read) = with_lines(all, n) {
        let made = crate::artifacts::assembled(read);
        assert(crate::artifacts::parsed_key(text@) == made);
        match parsed {
            Ok(vk) => {
                assert(made == Ok::<KeyParts, Seq<char>>(vk@));
                assert(vk@.ic.len() == vk.ic@.len());
                assert(holds_points(vk.ic@, ic)) by {
                    assert forall|i: int| 0 <= i < ic.len() implies (#[trigger] vk.ic@[i])@
                        == ic[i].1 by {
                        assert(vk@.ic[i] == vk.ic@[i]@);
                    }
                }
            },
            Err(e) => {
                assert(made == Err::<KeyParts, Seq<char>>(e@));
                if first_missized(ic) < ic.len() {
                    assert(ic[first_missized(ic) as int].1.len() != 96);
                }
            },
        }
    }
}

/// The number that eight bytes from a position on spell, least significant
/// first.
pub open spec fn announced(data: Seq<u8>, at: int) -> int {
    data[at] + 256 * (data[at + 1] + 256 * (data[at + 2] + 256 * (data[at + 3] + 256 * (data[at
        + 4] + 256 * (data[at + 5] + 256 * (data[at + 6] + 256 * data[at + 7]))))))
}

/// Where a list ends whose length stands at a position; the data's end where
/// the length is cut off.
pub open spec fn ends(data: Seq<u8>, at: int, size: int) -> int {
    if at + 8 > data.len() {
        data.len() as int
    } else {
        at + 8 + announced(data, at) * size
    }
}

proof fn lemma_ends(data: Seq<u8>, at: nat, skip: nat, size: nat)
    requires
        at <= data.len(),
    ensures
        crate::artifacts::list_end(data, at, skip, size) is Some <==> ends(
            data,
            at as int + skip,
            size as int,
        ) <= data.len(),
        crate::artifacts::list_end(data, at, skip, size) matches Some(e) ==> e == ends(
            data,
            at as int + skip,
            size as int,
        ) && e <= data.len(),
{
    let start = (at + skip) as int;
    if start + 8 <= data.len() {
        let b = data.skip(start);
        assert(b[0] == data[start] && b[1] == data[start + 1] && b[2] == data[start + 2]);
        assert(b[3] == data[start + 3] && b[4] == data[start + 4] && b[5] == data[start + 5]);
        assert(b[6] == data[start + 6] && b[7] == data[start + 7]);
        assert(crate::artifacts::count_at(data, start as nat) == announced(data, start));
    }
}

/// **Proving keys.** Bytes whose lists are all within them are read; others are
/// refused. The lists are, behind seven points of the key's head, the IC
/// points; behind two more, the queries of `A` and of `B` in G1; that of `B` in
/// G2; and those of `H` and `L`.
pub proof fn lemma_proving_key(data: &Vec<u8>, key: Result<ProvingKey, String>)
    requires
        call_ensures(proving_key, (data,), key),
    ensures
        ({
            let d = data@;
            let ic = ends(d, 336, 48);
            let a = ends(d, ic + 96, 48);
            let b1 = ends(d, a, 48);
            let b2 = ends(d, b1, 96);
            let h = ends(d, b2, 48);
            let l = ends(d, h, 48);
            let n = d.len();
            if ic <= n && a <= n && b1 <= n && b2 <= n && h <= n && l <= n {
                match key {
                    Ok(k) => proving_key_read(d) == Ok::<ProvingKey, Seq<char>>(k),
                    Err(e) => proving_key_read(d) == Err::<ProvingKey, Seq<char>>(e@),
                }
            } else {
                key matches Err(e) && e@ == "the input buffer contained invalid data"@
            }
        }),
{
    let d = data@;
    lemma_ends(d, 0, 336, 48);
    if let Some(ic) = crate::artifacts::list_end(d, 0, 336, 48) {
        lemma_ends(d, ic, 96, 48);
        if let Some(a) = crate::artifacts::list_end(d, ic, 96, 48) {
            lemma_ends(d, a, 0, 48);
            if let Some(b1) = crate::artifacts::list_end(d, a, 0, 48) {
                lemma_ends(d, b1, 0, 96);
                if let Some(b2) = crate::artifacts::list_end(d, b1, 0, 96) {
                    lemma_ends(d, b2, 0, 48);
                    if let Some(h) = crate::artifacts::list_end(d, b2, 0, 48) {
                        lemma_ends(d, h, 0, 48);
                    }
                }
            }
        }
    }
}

} // verus!
