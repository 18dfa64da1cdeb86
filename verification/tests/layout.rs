use attesta::layout;

#[test]
fn layouts_match_contract_expectations() {
    assert_eq!(layout::transfer_public_inputs(2, 2), 5);
    assert_eq!(layout::WITHDRAW_PUBLIC_INPUTS, 4);
    assert_eq!(layout::ATTESTATION_PUBLIC_INPUTS, 5);
}
