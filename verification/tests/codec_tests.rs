use alloy_primitives::{Address, Bytes, B256, U256};
use alloy_sol_types::SolValue;
use lif_rust::abi::{encode_bytes, encode_tuple, AbiField};
use lif_rust::codec::{build_calldata_response, build_onchain_order, build_open_calldata};
use lif_rust::tag::resolve_order_data_type;
use lif_rust::types::{BuildIntentRequest, ServiceError, UxDepositOrder, UxOutput};

fn hex_str(bytes: &[u8]) -> String {
    bytes.iter().map(|b| format!("{:02x}", b)).collect()
}

fn word(digits: &str) -> String {
    format!("{:0>64}", digits)
}

fn sample_order() -> UxDepositOrder {
    UxDepositOrder {
        user: format!("0x{}", "11".repeat(20)),
        input_token: format!("0x{}", "22".repeat(20)),
        input_amount: "1000".to_string(),
        outputs: vec![UxOutput {
            token: format!("0x{}", "33".repeat(20)),
            amount: "500".to_string(),
            recipient: format!("0x{}", "44".repeat(32)),
            chain_id: 10,
        }],
        destination_settler: format!("0x{}", "55".repeat(32)),
        destination_call_data: vec!["0x".to_string()],
        nonce: 1,
        lifi_calldata: "0x".to_string(),
    }
}

fn sample_request() -> BuildIntentRequest {
    BuildIntentRequest {
        fill_deadline: 1_700_000_000,
        order_data_type: None,
        order_data: sample_order(),
    }
}

#[test]
fn end_to_end_reference_vector() {
    let resp = build_onchain_order(sample_request()).unwrap();

    // Inner encoding: 8 head words, then outputs, call data, calldata tails.
    let inner_digits = [
        format!("{}{}", "0".repeat(24), "11".repeat(20)), // user
        format!("{}{}", "0".repeat(24), "22".repeat(20)), // inputToken
        word("3e8"),                                      // inputAmount 1000
        word("100"),                                      // offset of outputs: 256
        "55".repeat(32),                                  // destinationSettler
        word("1a0"),                                      // offset of callData: 416
        word("1"),                                        // nonce
        word("200"),                                      // offset of lifiCalldata: 512
        word("1"),                                        // outputs count
        format!("{}{}", "0".repeat(24), "33".repeat(20)), // token, promoted
        word("1f4"),                                      // amount 500
        "44".repeat(32),                                  // recipient, verbatim
        word("a"),                                        // chainId 10
        word("1"),                                        // callData count
        word("20"),                                       // offset of element 0
        word("0"),                                        // empty byte string
        word("0"),                                        // empty lifiCalldata
    ]
    .concat();
    assert_eq!(resp.order_data, format!("0x{}", inner_digits));

    // Outer encoding: deadline word, type tag word, offset word, then the
    // inner encoding as a length-prefixed byte string.
    let digest = hex_str(alloy_primitives::keccak256("UXDepositOrder".as_bytes()).as_slice());
    let expected_outer = format!(
        "0x{}{}{}{}{}",
        word("6553f100"), // fillDeadline 1700000000
        digest,
        word("60"),  // offset of orderData: 96
        word("220"), // inner length: 544 bytes
        inner_digits
    );
    assert_eq!(resp.onchain_order.order_data, expected_outer);
    assert_eq!(resp.onchain_order.fill_deadline, 1_700_000_000);
    assert_eq!(resp.order_data_type, format!("0x{}", digest));
    assert_eq!(resp.onchain_order.order_data_type, format!("0x{}", digest));
}

#[test]
fn tuple_encoder_reference_vector() {
    let fields = vec![
        AbiField::Static(vec![0xaau8; 32]),
        AbiField::Dynamic(encode_bytes(&vec![1u8, 2, 3])),
        AbiField::Static(vec![0xbbu8; 32]),
        AbiField::Dynamic(encode_bytes(&vec![0xffu8; 32])),
    ];
    let enc = encode_tuple(&fields);
    let expected = [
        "aa".repeat(32),                                 // static word in place
        word("80"),                                      // offset of first blob: 128
        "bb".repeat(32),                                 // static word in place
        word("c0"),                                      // offset of second blob: 192
        word("3"),                                       // first blob: length 3
        format!("010203{}", "0".repeat(58)),             // bytes, zero-padded
        word("20"),                                      // second blob: length 32
        "ff".repeat(32),                                 // bytes, already aligned
    ]
    .concat();
    assert_eq!(hex_str(&enc), expected);
}

#[test]
fn encoder_matches_the_reference_abi_encoder() {
    let resp = build_onchain_order(sample_request()).unwrap();

    let user = Address::from([0x11u8; 20]);
    let input_token = Address::from([0x22u8; 20]);
    let mut promoted = [0u8; 32];
    promoted[12..].copy_from_slice(&[0x33u8; 20]);
    let output = (
        B256::from(promoted),
        U256::from(500u64),
        B256::from([0x44u8; 32]),
        U256::from(10u64),
    );
    let inner_value = (
        user,
        input_token,
        U256::from(1000u64),
        vec![output],
        B256::from([0x55u8; 32]),
        vec![Bytes::new()],
        U256::from(1u64),
        Bytes::new(),
    );
    let inner_ref = inner_value.abi_encode_params();
    assert_eq!(resp.order_data, format!("0x{}", hex_str(&inner_ref)));

    let tag = alloy_primitives::keccak256("UXDepositOrder".as_bytes());
    let outer_value = (1_700_000_000u32, tag, Bytes::from(inner_ref));
    let outer_ref = outer_value.abi_encode_params();
    assert_eq!(
        resp.onchain_order.order_data,
        format!("0x{}", hex_str(&outer_ref))
    );
}

#[test]
fn pipeline_is_deterministic() {
    let a = build_onchain_order(sample_request()).unwrap();
    let b = build_onchain_order(sample_request()).unwrap();
    assert_eq!(a.order_data_type, b.order_data_type);
    assert_eq!(a.order_data, b.order_data);
    assert_eq!(a.onchain_order.order_data, b.onchain_order.order_data);
    assert_eq!(a.onchain_order.order_data_type, b.onchain_order.order_data_type);
    assert_eq!(a.onchain_order.fill_deadline, b.onchain_order.fill_deadline);
}

#[test]
fn empty_outputs_is_a_schema_mismatch() {
    let mut req = sample_request();
    req.order_data.outputs = Vec::new();
    req.order_data.destination_call_data = Vec::new();
    let e = build_onchain_order(req).unwrap_err();
    assert!(matches!(e, ServiceError::SchemaMismatch(_)));
    assert_eq!(e.message(), "outputs must not be empty");
}

#[test]
fn call_data_length_mismatch_is_a_schema_mismatch() {
    let mut req = sample_request();
    let second = req.order_data.outputs[0].clone();
    req.order_data.outputs.push(second);
    assert_eq!(req.order_data.outputs.len(), 2);
    assert_eq!(req.order_data.destination_call_data.len(), 1);
    let e = build_onchain_order(req).unwrap_err();
    assert!(matches!(e, ServiceError::SchemaMismatch(_)));
    assert_eq!(
        e.message(),
        "destinationCallData length must match outputs length"
    );
}

#[test]
fn default_type_tag_is_the_digest_of_the_name() {
    let tag = resolve_order_data_type("UXDepositOrder");
    let digest = alloy_primitives::keccak256("UXDepositOrder".as_bytes());
    assert_eq!(tag, digest.as_slice().to_vec());

    let resp = build_onchain_order(sample_request()).unwrap();
    assert_eq!(resp.order_data_type, format!("0x{}", hex_str(digest.as_slice())));
}

#[test]
fn literal_type_tag_is_used_verbatim() {
    let literal = format!("0x{}", "ab".repeat(32));
    let tag = resolve_order_data_type(&literal);
    assert_eq!(tag, vec![0xabu8; 32]);

    let mut req = sample_request();
    req.order_data_type = Some(literal.clone());
    let resp = build_onchain_order(req).unwrap();
    assert_eq!(resp.order_data_type, literal);
}

#[test]
fn named_type_tags_differ_from_their_names() {
    let tag = resolve_order_data_type("GaslessCrossChainOrder");
    let digest = alloy_primitives::keccak256("GaslessCrossChainOrder".as_bytes());
    assert_eq!(tag, digest.as_slice().to_vec());
    assert_ne!(tag, "GaslessCrossChainOrder".as_bytes().to_vec());
}

#[test]
fn non_hex_type_tag_text_is_hashed_as_a_name() {
    let text = format!("0x{}", "zz".repeat(32));
    let tag = resolve_order_data_type(&text);
    let digest = alloy_primitives::keccak256(text.as_bytes());
    assert_eq!(tag, digest.as_slice().to_vec());

    let mut req = sample_request();
    req.order_data_type = Some(text);
    let resp = build_onchain_order(req).unwrap();
    assert_eq!(resp.order_data_type, format!("0x{}", hex_str(digest.as_slice())));
}

#[test]
fn field_errors_surface_with_their_variant() {
    let mut req = sample_request();
    req.order_data.user = "0x123".to_string();
    assert!(matches!(
        build_onchain_order(req),
        Err(ServiceError::InvalidAddress(_))
    ));

    let mut req = sample_request();
    req.order_data.input_amount = "ten".to_string();
    assert!(matches!(
        build_onchain_order(req),
        Err(ServiceError::InvalidNumber(_))
    ));

    let mut req = sample_request();
    req.order_data.outputs[0].recipient = format!("0x{}", "44".repeat(31));
    assert!(matches!(
        build_onchain_order(req),
        Err(ServiceError::InvalidFixedHash(_))
    ));

    let mut req = sample_request();
    req.order_data.destination_call_data[0] = "0x012".to_string();
    assert!(matches!(
        build_onchain_order(req),
        Err(ServiceError::InvalidBytes(_))
    ));

    let mut req = sample_request();
    req.order_data.lifi_calldata = "0xgg".to_string();
    assert!(matches!(
        build_onchain_order(req),
        Err(ServiceError::InvalidBytes(_))
    ));
}

#[test]
fn calldata_without_configuration_is_rejected() {
    let e = build_calldata_response(None, sample_request()).unwrap_err();
    assert!(matches!(e, ServiceError::MissingConfiguration));
}

#[test]
fn calldata_carries_the_outer_encoding() {
    let settler = format!("0x{}", "66".repeat(20));
    let resp = build_calldata_response(Some(settler.clone()), sample_request()).unwrap();
    assert_eq!(resp.to, settler);
    assert_eq!(resp.data, resp.onchain_order.order_data);

    let (intent, data) = build_open_calldata(sample_request()).unwrap();
    assert_eq!(data, intent.onchain_order.order_data);
    assert_eq!(resp.order_data, intent.order_data);
}
