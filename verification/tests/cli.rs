//! The command line without its input and output.

use attesta::artifacts::{parse_vk_hex, to_g1, to_g2};
use attesta::cli::args::{
    canonical, hex32, one, parse_flags, parse_fr, parse_number, two, TryParse,
};
use attesta::cli::bundle::{
    bundle_field, load_commitments, public_summary, read_bundle, render_transfer, render_withdraw,
};
use attesta::cli::commands::{
    cmd_keygen, cmd_note, cmd_pk, read_note_request, show_keys, show_note, transfer_order,
    withdraw_order,
};
use attesta::cli::verify::{bundle_proof, checked_g1, checked_g2, statement, verify_bundle};
use attesta::encoding::{fr_to_bytes, ProofBytes, VerificationKeyBytes};
use attesta::field::Fr;
use attesta::interfaces::fr::FR_MINUS_ONE;
use attesta::merkle::MerkleTree;
use attesta::note::{derive_pk, Note};
use attesta::prover::{
    check_spend, prove_transfer, prove_withdraw, rebuild_tree, Output, ProveError, Spend,
    TransferBundle, WithdrawBundle,
};
use attesta::text;
use attesta::transfer::TransferCircuit;
use attesta::withdraw::WithdrawCircuit;

fn args(list: &[&str]) -> Vec<String> {
    list.iter().map(|s| s.to_string()).collect()
}

fn hex(x: u64) -> String {
    hex::encode(fr_to_bytes(Fr::from(x)))
}

const G1_GEN: &str = "17f1d3a73197d7942695638c4fa9ac0fc3688c4f9774b905a14e3a3f171bac586c55e83ff97a1aeffb3af00adb22c6bb08b3f481e3aaa0f1a09e30ed741d8ae4fcf5e095d5d00af600db18cb2c04b3edd03cc744a2888ae40caa232946c5e7e1";
const G2_GEN: &str = "13e02b6052719f607dacd3a088274f65596bd0d09920b61ab5da61bbdc7f5049334cf11213945d57e5ac7d055d042b7e024aa2b2f08f0a91260805272dc51051c6e47ad4fa403b02b4510b647ae3d1770bac0326a805bbefd48056c8c121bdb80606c4a02ea734cc32acd2b02bc28b99cb3e287e85a763af267492ab572e99ab3f370d275cec1da1aaa9075ff05f79be0ce5d527727d6e118cc9cdc6da2e351aadfd9baa8cbdd3a76d429a695160d12c923ac9cc3baca289e193548608b82801";

// ── flags ───────────────────────────────────────────────────────────────

#[test]
fn flags_accumulate_in_order() {
    let flags = parse_flags(&args(&["--spend", "a", "--out", "x", "--spend", "b"])).unwrap();
    assert_eq!(
        flags.values("spend").unwrap(),
        &vec!["a".to_string(), "b".to_string()]
    );
    assert_eq!(one(&flags, "out").unwrap(), "x");
    assert!(flags.values("sk").is_none());
    assert!(parse_flags(&[]).unwrap().values("sk").is_none());
}

#[test]
fn bad_flags_are_named() {
    assert_eq!(
        parse_flags(&args(&["sk"])).unwrap_err(),
        "expected --flag, got sk"
    );
    assert_eq!(
        parse_flags(&args(&["--sk"])).unwrap_err(),
        "--sk needs a value"
    );
    assert_eq!(
        parse_flags(&args(&["--sk", "1", "oops", "2"])).unwrap_err(),
        "expected --flag, got oops"
    );
    let flags = parse_flags(&args(&["--sk", "1", "--sk", "2"])).unwrap();
    assert_eq!(one(&flags, "sk").unwrap_err(), "--sk given more than once");
    assert_eq!(one(&flags, "out").unwrap_err(), "missing --out");
}

#[test]
fn descriptors_come_in_pairs() {
    let spend = format!("{}:500:{}:3", hex(11), hex(101));
    let dummy = format!("{}:0:{}:0", hex(12), hex(0));
    let flags = parse_flags(&args(&["--spend", &spend, "--spend", &dummy])).unwrap();
    let spends: [Spend; 2] = two(&flags, "spend").unwrap();
    assert_eq!(
        spends[0],
        Spend {
            sk: Fr::from(11u64),
            value: 500,
            blinding: Fr::from(101u64),
            leaf_index: 3
        }
    );
    assert_eq!(spends[1].value, 0);

    let flags = parse_flags(&args(&["--spend", &spend])).unwrap();
    assert_eq!(
        two::<Spend>(&flags, "spend").unwrap_err(),
        "--spend must be given exactly twice"
    );
    assert_eq!(
        two::<Output>(&flags, "output").unwrap_err(),
        "--output must be given exactly twice"
    );
    // The first bad descriptor is the one reported.
    let flags = parse_flags(&args(&["--spend", "x", "--spend", &spend])).unwrap();
    assert_eq!(
        two::<Spend>(&flags, "spend").unwrap_err(),
        "--spend wants sk:value:blinding:leaf_index, got x"
    );
}

#[test]
fn spends_and_outputs_are_parsed() {
    let out = Output::try_parse(&format!("{}:7:{}", hex(5), hex(6))).unwrap();
    assert_eq!(
        out,
        Output {
            owner_pk: Fr::from(5u64),
            value: 7,
            blinding: Fr::from(6u64)
        }
    );
    assert_eq!(
        Output::try_parse("a:b").unwrap_err(),
        "--output wants owner_pk:value:blinding, got a:b"
    );
    assert_eq!(
        Output::try_parse(&format!("{}:x:{}", hex(5), hex(6))).unwrap_err(),
        "output value: invalid digit found in string"
    );
    assert_eq!(
        Spend::try_parse(&format!("{}:x:{}:0", hex(5), hex(6))).unwrap_err(),
        "spend value: invalid digit found in string"
    );
    assert_eq!(
        Spend::try_parse(&format!("{}:1:{}:", hex(5), hex(6))).unwrap_err(),
        "spend leaf index: cannot parse integer from empty string"
    );
    assert_eq!(
        Spend::try_parse(&format!("{}:1:zz:0", hex(5))).unwrap_err(),
        "bad hex: Invalid character 'z' at position 0"
    );
}

// ── scalars and numbers ─────────────────────────────────────────────────

#[test]
fn scalars_are_canonical_hex() {
    assert_eq!(parse_fr(&hex(258)).unwrap(), Fr::from(258u64));
    assert_eq!(hex32(Fr::from(258u64)), hex(258));
    assert_eq!(parse_fr("00").unwrap_err(), "expected 32 bytes");
    assert_eq!(parse_fr("0").unwrap_err(), "bad hex: Odd number of digits");
    assert_eq!(
        parse_fr("0\n").unwrap_err(),
        "bad hex: Invalid character '\\n' at position 1"
    );
    let mut order = FR_MINUS_ONE;
    assert!(canonical(&order));
    assert!(parse_fr(&hex::encode(order)).is_ok());
    order[31] = 1;
    assert!(!canonical(&order));
    assert_eq!(
        parse_fr(&hex::encode(order)).unwrap_err(),
        "not a canonical field element (≥ group order)"
    );
}

#[test]
fn numbers_fit_64_bits() {
    let read = |s: &str| parse_number("--value", &text::chars_of(s));
    assert_eq!(read("500"), Ok(500));
    assert_eq!(read("+7"), Ok(7));
    assert_eq!(read("007"), Ok(7));
    assert_eq!(read("18446744073709551615"), Ok(u64::MAX));
    assert_eq!(
        read("18446744073709551616").unwrap_err(),
        "--value: number too large to fit in target type"
    );
    assert_eq!(
        read("").unwrap_err(),
        "--value: cannot parse integer from empty string"
    );
    assert_eq!(
        read("-1").unwrap_err(),
        "--value: invalid digit found in string"
    );
    assert_eq!(
        read("+").unwrap_err(),
        "--value: invalid digit found in string"
    );
    // As std reads and words it.
    for s in ["", "+", "-", "1x", "18446744073709551616", "99999999999999999999x", "12"] {
        let std: Result<u64, String> = s.parse().map_err(|e| format!("--value: {e}"));
        assert_eq!(read(s), std, "{s}");
    }
}

#[test]
fn text_is_read_as_std_reads_it() {
    let strings = |list: Vec<Vec<char>>| -> Vec<String> {
        list.iter().map(text::string_of).collect()
    };
    for s in ["", "a", "a\n", "a\nb", "a\r\nb\r", "\n\n", "a\r\r\nb", " \u{a0}x\u{3000}\t"] {
        let chars = text::chars_of(s);
        let std: Vec<String> = s.lines().map(|l| l.to_string()).collect();
        assert_eq!(strings(text::lines(&chars)), std, "{s:?}");
        assert_eq!(text::string_of(&text::trim(&chars)), s.trim(), "{s:?}");
    }
    for s in ["", ":", "a:b", "a::b:", "ab"] {
        let chars = text::chars_of(s);
        let std: Vec<String> = s.split(':').map(|l| l.to_string()).collect();
        assert_eq!(strings(text::split(&chars, ':')), std, "{s:?}");
        let parts = text::split_once(&chars, ':')
            .map(|(a, b)| (text::string_of(&a), text::string_of(&b)));
        let std = s
            .split_once(':')
            .map(|(a, b)| (a.to_string(), b.to_string()));
        assert_eq!(parts, std, "{s:?}");
    }
    for c in (0..=0x10ffffu32).filter_map(char::from_u32) {
        assert_eq!(text::is_white(c), c.is_whitespace(), "{c:?}");
    }
    assert_eq!(
        text::string_of(&text::to_decimal(u128::MAX)),
        u128::MAX.to_string()
    );
}

// ── commitment logs ─────────────────────────────────────────────────────

#[test]
fn logs_list_leaves_in_order() {
    let text = format!("# pool log\n{}\n\n  {}  \r\n", hex(1), hex(2));
    assert_eq!(
        load_commitments("log.txt", &text).unwrap(),
        vec![Fr::from(1u64), Fr::from(2u64)]
    );
    assert_eq!(load_commitments("log.txt", "").unwrap(), vec![]);
}

#[test]
fn bad_leaves_are_located() {
    let text = format!("{}\n# fine\nabc\n", hex(1));
    assert_eq!(
        load_commitments("log.txt", &text).unwrap_err(),
        "log.txt:3: bad hex: Odd number of digits"
    );
}

// ── bundles ─────────────────────────────────────────────────────────────

fn transfer_bundle() -> TransferBundle {
    TransferBundle {
        proof: ProofBytes {
            a: [1u8; 96],
            b: [2u8; 192],
            c: [3u8; 96],
        },
        root: fr_to_bytes(Fr::from(10u64)),
        nullifiers: vec![fr_to_bytes(Fr::from(11u64)), fr_to_bytes(Fr::from(12u64))],
        new_commitments: vec![fr_to_bytes(Fr::from(13u64)), fr_to_bytes(Fr::from(14u64))],
    }
}

fn withdraw_bundle() -> WithdrawBundle {
    WithdrawBundle {
        proof: ProofBytes {
            a: [1u8; 96],
            b: [2u8; 192],
            c: [3u8; 96],
        },
        root: fr_to_bytes(Fr::from(10u64)),
        nullifier: fr_to_bytes(Fr::from(11u64)),
        recipient_binding: fr_to_bytes(Fr::from(12u64)),
        amount: 750,
    }
}

#[test]
fn transfer_bundles_are_key_value_lines() {
    let text = render_transfer(&transfer_bundle());
    let expected = format!(
        "# attesta transfer proof bundle\ncircuit=transfer\nproof.a={}\nproof.b={}\nproof.c={}\nroot={}\nnullifier.0={}\nnullifier.1={}\nnew_commitment.0={}\nnew_commitment.1={}\n",
        "01".repeat(96),
        "02".repeat(192),
        "03".repeat(96),
        hex(10),
        hex(11),
        hex(12),
        hex(13),
        hex(14),
    );
    assert_eq!(text, expected);
    assert_eq!(
        public_summary(&text),
        vec![
            "circuit=transfer".to_string(),
            format!("root={}", hex(10)),
            format!("nullifier.0={}", hex(11)),
            format!("nullifier.1={}", hex(12)),
            format!("new_commitment.0={}", hex(13)),
            format!("new_commitment.1={}", hex(14)),
        ]
    );
}

#[test]
fn withdraw_bundles_are_key_value_lines() {
    let text = render_withdraw(&withdraw_bundle());
    let expected = format!(
        "# attesta withdraw proof bundle\ncircuit=withdraw\nproof.a={}\nproof.b={}\nproof.c={}\nroot={}\nnullifier={}\nrecipient_binding={}\namount=750\n",
        "01".repeat(96),
        "02".repeat(192),
        "03".repeat(96),
        hex(10),
        hex(11),
        hex(12),
    );
    assert_eq!(text, expected);
    assert_eq!(public_summary(&text).len(), 5);
}

#[test]
fn bundles_read_back() {
    let read = read_bundle("b", &render_transfer(&transfer_bundle())).unwrap();
    assert_eq!(bundle_field(&read, "circuit").unwrap(), "transfer");
    assert_eq!(bundle_field(&read, "new_commitment.1").unwrap(), hex(14));
    assert_eq!(
        bundle_field(&read, "amount").unwrap_err(),
        "bundle is missing amount"
    );
    let (circuit, inputs) = statement(&read).unwrap();
    assert_eq!(circuit, "transfer");
    let expected: Vec<Fr> = (10..15u64).map(Fr::from).collect();
    assert_eq!(inputs, expected);

    let read = read_bundle("b", &render_withdraw(&withdraw_bundle())).unwrap();
    let (circuit, inputs) = statement(&read).unwrap();
    assert_eq!(circuit, "withdraw");
    assert_eq!(
        inputs,
        vec![
            Fr::from(10u64),
            Fr::from(11u64),
            Fr::from(12u64),
            Fr::from(750u64)
        ]
    );
}

#[test]
fn bad_bundles_are_refused() {
    assert_eq!(
        read_bundle("b", "circuit").unwrap_err(),
        "b: malformed line: circuit"
    );
    assert_eq!(
        read_bundle("b", "a=1\n# a=2\n a=3 ").unwrap_err(),
        "b: duplicate key: a"
    );
    let read = read_bundle("b", "").unwrap();
    assert_eq!(statement(&read).unwrap_err(), "bundle is missing circuit");
    let read = read_bundle("b", "circuit=mint").unwrap();
    assert_eq!(statement(&read).unwrap_err(), "bundle is missing root");
    let read = read_bundle("b", &format!("circuit=mint\nroot={}", hex(1))).unwrap();
    assert_eq!(
        statement(&read).unwrap_err(),
        "unknown bundle circuit: mint"
    );
    let text = render_withdraw(&withdraw_bundle()).replace("amount=750", "amount=many");
    let read = read_bundle("b", &text).unwrap();
    assert_eq!(
        statement(&read).unwrap_err(),
        "amount: invalid digit found in string"
    );
}

// ── the offline check ───────────────────────────────────────────────────

#[test]
fn proof_points_are_checked() {
    assert!(checked_g1(G1_GEN, "proof.a").is_ok());
    assert!(checked_g2(G2_GEN, "proof.b").is_ok());
    assert_eq!(
        checked_g1("00", "proof.a").unwrap_err(),
        "proof.a: expected 96 bytes"
    );
    assert_eq!(
        checked_g2("00", "proof.b").unwrap_err(),
        "proof.b: expected 192 bytes"
    );
    assert_eq!(
        checked_g1("x", "proof.a").unwrap_err(),
        "proof.a: Odd number of digits"
    );
    assert_eq!(
        checked_g2("xx", "proof.b").unwrap_err(),
        "proof.b: Invalid character 'x' at position 0"
    );
    assert_eq!(
        checked_g1(&"01".repeat(96), "proof.a").unwrap_err(),
        "proof.a: not a valid G1 point"
    );
    assert_eq!(
        checked_g2(&"02".repeat(192), "proof.b").unwrap_err(),
        "proof.b: not a valid G2 point"
    );
}

fn g1_gen() -> [u8; 96] {
    to_g1(&hex::decode(G1_GEN).unwrap()).unwrap()
}

fn g2_gen() -> [u8; 192] {
    to_g2(&hex::decode(G2_GEN).unwrap()).unwrap()
}

fn key(n: usize) -> VerificationKeyBytes {
    VerificationKeyBytes {
        alpha: g1_gen(),
        beta: g2_gen(),
        gamma: g2_gen(),
        delta: g2_gen(),
        ic: vec![g1_gen(); n],
    }
}

#[test]
fn offline_checks_report_what_is_wrong() {
    let mut bundle = withdraw_bundle();
    let read = read_bundle("b", &render_withdraw(&bundle)).unwrap();
    assert_eq!(
        verify_bundle(&key(6), &read).unwrap_err(),
        "vk expects 5 public inputs, bundle has 4 — wrong vk for this circuit?"
    );
    assert_eq!(
        verify_bundle(&key(5), &read).unwrap_err(),
        "proof.a: not a valid G1 point"
    );
    bundle.proof = ProofBytes {
        a: g1_gen(),
        b: g2_gen(),
        c: g1_gen(),
    };
    let read = read_bundle("b", &render_withdraw(&bundle)).unwrap();
    assert!(bundle_proof(&read).is_ok());
    assert_eq!(
        verify_bundle(&key(5), &read).unwrap_err(),
        "proof does NOT verify against this vk and these public inputs"
    );
    let mut bad = key(5);
    bad.ic[2][95] ^= 1;
    assert_eq!(
        verify_bundle(&bad, &read).unwrap_err(),
        "vk: not a valid key, a point is off-curve or in the wrong subgroup"
    );
}

#[test]
fn a_key_without_ic_points_fits_no_bundle() {
    let vk = parse_vk_hex(&key_text(&key(0))).unwrap();
    assert!(vk.ic.is_empty());
    let read = read_bundle("b", &render_withdraw(&withdraw_bundle())).unwrap();
    assert_eq!(
        verify_bundle(&vk, &read).unwrap_err(),
        "vk has no IC points — wrong vk for this circuit?"
    );
    // What the bundle states is looked at first.
    let read = read_bundle("b", "root=00\n").unwrap();
    assert_eq!(
        verify_bundle(&vk, &read).unwrap_err(),
        statement(&read).unwrap_err()
    );
}

#[test]
fn offline_checks_accept_a_statement_that_holds() {
    // With gamma at infinity the inputs do not count, and
    // e(A, B) = e(alpha, beta) * e(C, delta) holds for C at infinity.
    let mut vk = key(5);
    vk.gamma = [0u8; 192];
    vk.gamma[0] = 0x40;
    let mut bundle = withdraw_bundle();
    let mut infinity = [0u8; 96];
    infinity[0] = 0x40;
    bundle.proof = ProofBytes {
        a: g1_gen(),
        b: g2_gen(),
        c: infinity,
    };
    let read = read_bundle("b", &render_withdraw(&bundle)).unwrap();
    assert_eq!(
        verify_bundle(&vk, &read).unwrap(),
        "OK: withdraw proof verifies (4 public inputs)"
    );
}

// ── verifying-key artifacts ─────────────────────────────────────────────

fn key_text(vk: &VerificationKeyBytes) -> String {
    let mut text = format!(
        "# key\nalpha={}\nbeta={}\ngamma={}\ndelta={}\n",
        hex::encode(vk.alpha),
        hex::encode(vk.beta),
        hex::encode(vk.gamma),
        hex::encode(vk.delta)
    );
    for (i, p) in vk.ic.iter().enumerate() {
        text.push_str(&format!("ic.{i}={}\n", hex::encode(p)));
    }
    text
}

#[test]
fn key_artifacts_are_parsed() {
    let vk = parse_vk_hex(&key_text(&key(3))).unwrap();
    assert_eq!(vk.alpha, g1_gen());
    assert_eq!(vk.beta, g2_gen());
    assert_eq!(vk.gamma, g2_gen());
    assert_eq!(vk.delta, g2_gen());
    assert_eq!(vk.ic, vec![g1_gen(); 3]);
}

#[test]
fn key_lines_may_come_in_any_order() {
    let mut vk = key(12);
    for (i, p) in vk.ic.iter_mut().enumerate() {
        p[95] = i as u8;
    }
    let text = key_text(&vk);
    let parts = |vk: VerificationKeyBytes| (vk.alpha, vk.beta, vk.gamma, vk.delta, vk.ic);
    let read = parts(parse_vk_hex(&text).unwrap());
    let mut shuffled = String::new();
    for line in text.lines().rev() {
        shuffled.push_str(&format!("\n  # comment\n\t {line} \r\n"));
    }
    assert_eq!(parts(parse_vk_hex(&shuffled).unwrap()), read);
    assert_eq!(read, parts(vk));
}

#[test]
fn ic_points_are_sorted_by_number() {
    let mut text = key_text(&key(0));
    for (n, b) in [(2, "22"), (10, "aa"), (0, "00"), (2, "33")] {
        text.push_str(&format!("ic.{n}={}\n", b.repeat(96)));
    }
    let vk = parse_vk_hex(&text).unwrap();
    let firsts: Vec<u8> = vk.ic.iter().map(|p| p[0]).collect();
    // Entries with the same number keep their order.
    assert_eq!(firsts, vec![0x00, 0x22, 0x33, 0xaa]);
}

#[test]
fn later_lines_override_earlier_ones() {
    let mut text = key_text(&key(1));
    text.push_str(&format!("alpha={}\n", "01".repeat(96)));
    assert_eq!(parse_vk_hex(&text).unwrap().alpha, [1u8; 96]);
}

#[test]
fn bad_key_artifacts_are_refused() {
    let err = |text: &str| parse_vk_hex(text).unwrap_err();
    assert_eq!(err(""), "missing alpha");
    assert_eq!(err("alpha"), "malformed line: alpha");
    assert_eq!(err("alpha=zz"), "alpha: Invalid character 'z' at position 0");
    assert_eq!(err("alpha=00"), "alpha: wrong length");
    assert_eq!(err("epsilon=00"), "unknown key: epsilon");
    assert_eq!(err("ic.=00"), "unknown key: ic.");
    assert_eq!(err("ic.x=00"), "unknown key: ic.x");
    let full = key_text(&key(1));
    assert_eq!(
        err(&full.replace("beta=", "# beta=")),
        "missing beta"
    );
    assert_eq!(err(&format!("{full}gamma=00")), "gamma: wrong length");
    assert_eq!(err(&format!("{full}delta=00")), "delta: wrong length");
    assert_eq!(err(&format!("{full}ic.7=00")), "ic.7: wrong length");
}

// ── commands ────────────────────────────────────────────────────────────

#[test]
fn keys_are_shown_in_hex() {
    let sk = Fr::from(11u64);
    let pk = hex32(derive_pk(sk));
    assert_eq!(
        show_keys(sk),
        vec![format!("sk={}", hex(11)), format!("pk={pk}")]
    );
    assert_eq!(
        cmd_pk(&args(&["--sk", &hex(11)])).unwrap(),
        vec![format!("pk={pk}")]
    );
    assert_eq!(cmd_pk(&[]).unwrap_err(), "missing --sk");
    assert_eq!(
        cmd_pk(&args(&["--sk", "00"])).unwrap_err(),
        "expected 32 bytes"
    );
}

#[test]
fn fresh_keys_match_and_differ() {
    let a = cmd_keygen();
    let b = cmd_keygen();
    assert_ne!(a[0], b[0]);
    let sk = parse_fr(a[0].strip_prefix("sk=").unwrap()).unwrap();
    assert_eq!(a, show_keys(sk));
}

#[test]
fn notes_are_shown_with_their_commitment() {
    let note = Note {
        value: 500,
        owner_pk: derive_pk(Fr::from(11u64)),
        blinding: Fr::from(101u64),
    };
    let expected = vec![
        "value=500".to_string(),
        format!("owner_pk={}", hex32(note.owner_pk)),
        format!("blinding={}", hex(101)),
        format!("commitment={}", hex32(note.commitment())),
    ];
    assert_eq!(show_note(&note), expected);
    let owner = hex32(note.owner_pk);
    let blinding = hex(101);
    let given = args(&[
        "--value", "500", "--owner-pk", &owner, "--blinding", &blinding,
    ]);
    assert_eq!(cmd_note(&given).unwrap(), expected);
    assert_eq!(
        read_note_request(&given).unwrap(),
        (500, note.owner_pk, Some(note.blinding))
    );

    // Without a blinding, a fresh one is drawn, and the commitment opens to it.
    let drawn = cmd_note(&args(&["--value", "500", "--owner-pk", &owner])).unwrap();
    let blinding = parse_fr(drawn[2].strip_prefix("blinding=").unwrap()).unwrap();
    assert_eq!(drawn, show_note(&Note { blinding, ..note }));

    assert_eq!(
        cmd_note(&args(&["--value", "x"])).unwrap_err(),
        "--value: invalid digit found in string"
    );
    assert_eq!(
        cmd_note(&args(&["--value", "5"])).unwrap_err(),
        "missing --owner-pk"
    );
}

#[test]
fn orders_are_read_from_flags() {
    let spend = format!("{}:500:{}:3", hex(11), hex(101));
    let output = format!("{}:250:{}", hex(21), hex(201));
    let flags = parse_flags(&args(&[
        "--spend", &spend, "--spend", &spend, "--output", &output, "--output", &output, "--out",
        "t.bundle",
    ]))
    .unwrap();
    let order = transfer_order(&flags).unwrap();
    assert_eq!(order.spends[1].leaf_index, 3);
    assert_eq!(order.outputs[0].value, 250);
    assert_eq!(order.out, "t.bundle");
    assert_eq!(
        withdraw_order(&flags).unwrap_err(),
        "--spend given more than once"
    );

    let binding = hex(4242);
    let flags = parse_flags(&args(&[
        "--spend",
        &spend,
        "--recipient-binding",
        &binding,
        "--out",
        "w.bundle",
    ]))
    .unwrap();
    let order = withdraw_order(&flags).unwrap();
    assert_eq!(order.spend.value, 500);
    assert_eq!(order.recipient_binding, Fr::from(4242u64));
    assert_eq!(order.out, "w.bundle");
    assert_eq!(
        transfer_order(&flags).unwrap_err(),
        "--spend must be given exactly twice"
    );
}

// ── failures before proving ─────────────────────────────────────────────

fn never_transfer(_: &TransferCircuit) -> Result<attesta::encoding::Proof, String> {
    unreachable!()
}

fn never_withdraw(_: &WithdrawCircuit) -> Result<attesta::encoding::Proof, String> {
    unreachable!()
}

#[test]
fn mismatches_are_diagnosed() {
    let sk = Fr::from(11u64);
    let note = Note {
        value: 500,
        owner_pk: derive_pk(sk),
        blinding: Fr::from(101u64),
    };
    let log = vec![note.commitment()];
    let spend = Spend {
        sk,
        value: 500,
        blinding: Fr::from(101u64),
        leaf_index: 0,
    };
    let dummy = Spend {
        sk: Fr::from(777u64),
        value: 0,
        blinding: Fr::zero(),
        leaf_index: 9,
    };
    let output = |value: u64| Output {
        owner_pk: derive_pk(sk),
        value,
        blinding: Fr::from(201u64),
    };
    let err = prove_transfer(never_transfer, &log, &[spend, dummy], &[output(400), output(1)])
        .unwrap_err();
    assert_eq!(
        err.message(),
        "value mismatch: spending 500 but creating 401"
    );

    let lost = Spend {
        leaf_index: 4,
        ..spend
    };
    let err = prove_transfer(never_transfer, &log, &[lost, dummy], &[output(500), output(0)])
        .unwrap_err();
    assert_eq!(
        err.message(),
        "leaf index 4 out of range (tree has 1 leaves)"
    );
    let err = prove_withdraw(never_withdraw, &log, &lost, Fr::zero()).unwrap_err();
    assert_eq!(
        err.message(),
        "leaf index 4 out of range (tree has 1 leaves)"
    );

    let stolen = Spend {
        sk: Fr::from(12u64),
        ..spend
    };
    let err = prove_withdraw(never_withdraw, &log, &stolen, Fr::zero()).unwrap_err();
    assert_eq!(
        err.message(),
        "note does not match the commitment at leaf 0 — wrong sk, value, blinding, or index"
    );

    // The dummy's leaf index does not matter; the prover's own failure is
    // passed on.
    let err = prove_transfer(
        |_: &TransferCircuit| -> Result<attesta::encoding::Proof, String> {
            Err("no randomness".to_string())
        },
        &log,
        &[spend, dummy],
        &[output(500), output(0)],
    )
    .unwrap_err();
    assert!(matches!(err, ProveError::Prover(_)));
    assert_eq!(err.message(), "no randomness");
}

#[test]
fn logs_longer_than_the_tree_are_refused() {
    let log = vec![Fr::zero(); (1 << 20) + 1];
    let spend = Spend {
        sk: Fr::from(11u64),
        value: 500,
        blinding: Fr::from(101u64),
        leaf_index: 0,
    };
    let output = |value: u64| Output {
        owner_pk: derive_pk(Fr::from(11u64)),
        value,
        blinding: Fr::from(201u64),
    };
    let text = "commitment log has 1048577 leaves, more than the tree holds";
    assert_eq!(rebuild_tree(&log).err().unwrap().message(), text);
    let err = prove_transfer(never_transfer, &log, &[spend, spend], &[output(500), output(500)])
        .unwrap_err();
    assert!(matches!(err, ProveError::LogTooLong { size: 1_048_577 }));
    let err = prove_withdraw(never_withdraw, &log, &spend, Fr::zero()).unwrap_err();
    assert_eq!(err.message(), text);
    // The values are compared first.
    let err = prove_transfer(never_transfer, &log, &[spend, spend], &[output(500), output(1)])
        .unwrap_err();
    assert_eq!(
        err.message(),
        "value mismatch: spending 1000 but creating 501"
    );
}

#[test]
fn spends_are_checked_in_a_tree_of_any_height() {
    let sk = Fr::from(11u64);
    let note = Note {
        value: 500,
        owner_pk: derive_pk(sk),
        blinding: Fr::from(101u64),
    };
    let mut tree = MerkleTree::new(3);
    tree.insert(Fr::from(5u64));
    tree.insert(note.commitment());
    let spend = Spend {
        sk,
        value: 500,
        blinding: Fr::from(101u64),
        leaf_index: 1,
    };
    assert_eq!(check_spend(&tree, &spend).unwrap(), note);
    let elsewhere = Spend {
        leaf_index: 0,
        ..spend
    };
    let err = check_spend(&tree, &elsewhere).unwrap_err();
    assert!(matches!(err, ProveError::NoteMismatch { leaf: 0 }));
    let beyond = Spend {
        leaf_index: 2,
        ..spend
    };
    let err = check_spend(&tree, &beyond).unwrap_err();
    assert!(matches!(err, ProveError::LeafOutOfRange { index: 2, size: 2 }));
}
