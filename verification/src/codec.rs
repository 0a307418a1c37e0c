//! The order codec: normalize the textual order, encode the inner deposit
//! order, resolve the type tag, encode the outer order, and render every
//! buffer as prefixed hex. One linear pass per request, no state kept.

use vstd::prelude::*;
use vstd::string::*;
use crate::words::{be_bytes, zero_bytes, be_bytes_u64, lemma_be_bytes_len};
use crate::hextext::{hex_text, format_hex, hex_bytes, lemma_hex_bytes_len};
use crate::abi::{AbiField, FieldModel, field_wf, fields_wf, models, tuple_enc, bytes_enc, bytes_array_enc, byte_seqs, bytes_fields, encode_tuple, encode_bytes, encode_bytes_array, copy_bytes, lemma_bytes_enc_len, lemma_tuple_enc_len};
use crate::normalize::{stripped, addr_text_valid, addr_bytes, fixed_hash_of_text, u256_text_valid, u256_text_val, bytes_of_text, parse_address, parse_b256_or_address, parse_u256, parse_bytes};
use crate::tag::{resolve_tag_spec, resolve_order_data_type};
use crate::types::{UxOutputModel, UxDepositOrderModel, BuildIntentRequestModel, BuildIntentRequest, BuildIntentResponse, BuildIntentResponseModel, OnchainCrossChainOrderPayload, OnchainCrossChainOrderPayloadModel, BuildCalldataResponse, ServiceError, ServiceErrorModel};

verus! {

/// The first rejection an output leg produces, fields checked in the
/// order token, recipient, amount.
pub open spec fn output_error(o: UxOutputModel) -> Option<ServiceErrorModel> {
    if fixed_hash_of_text(o.token) is None {
        Some(
            if stripped(o.token).len() == 40 {
                ServiceErrorModel::InvalidAddress(o.token)
            } else {
                ServiceErrorModel::InvalidFixedHash(o.token)
            },
        )
    } else if fixed_hash_of_text(o.recipient) is None {
        Some(
            if stripped(o.recipient).len() == 40 {
                ServiceErrorModel::InvalidAddress(o.recipient)
            } else {
                ServiceErrorModel::InvalidFixedHash(o.recipient)
            },
        )
    } else if !u256_text_valid(o.amount) {
        Some(ServiceErrorModel::InvalidNumber(o.amount))
    } else {
        None
    }
}

/// The first rejection among the first `i` output legs.
pub open spec fn outputs_error(outs: Seq<UxOutputModel>, i: int) -> Option<ServiceErrorModel>
    decreases i,
{
    if i <= 0 {
        None
    } else if outputs_error(outs, i - 1) is Some {
        outputs_error(outs, i - 1)
    } else {
        output_error(outs[i - 1])
    }
}

/// The first rejection among the first `i` call-data entries.
pub open spec fn cd_error(cds: Seq<Seq<char>>, i: int) -> Option<ServiceErrorModel>
    decreases i,
{
    if i <= 0 {
        None
    } else if cd_error(cds, i - 1) is Some {
        cd_error(cds, i - 1)
    } else if bytes_of_text(cds[i - 1]) is None {
        Some(ServiceErrorModel::InvalidBytes(stripped(cds[i - 1])))
    } else {
        None
    }
}

/// The four static words of one output leg: token, amount, recipient,
/// chain id.
pub open spec fn output_words(o: UxOutputModel) -> Seq<u8> {
    fixed_hash_of_text(o.token)->Some_0 + be_bytes(u256_text_val(o.amount), 32) + fixed_hash_of_text(
        o.recipient,
    )->Some_0 + be_bytes(o.chain_id as nat, 32)
}

pub open spec fn outputs_body(outs: Seq<UxOutputModel>, i: int) -> Seq<u8>
    decreases i,
{
    if i <= 0 {
        Seq::empty()
    } else {
        outputs_body(outs, i - 1) + output_words(outs[i - 1])
    }
}

/// Encoding of the outputs array: a count word, then each output's four
/// words inlined — the element type is purely static, so no offsets.
pub open spec fn outputs_enc(outs: Seq<UxOutputModel>) -> Seq<u8> {
    be_bytes(outs.len(), 32) + outputs_body(outs, outs.len() as int)
}

/// The byte strings the call-data entries denote.
pub open spec fn cd_bytes(cds: Seq<Seq<char>>) -> Seq<Seq<u8>> {
    cds.map_values(|s: Seq<char>| bytes_of_text(s)->Some_0)
}

/// The eight fields of a deposit order, classified and valued.
pub open spec fn inner_fields(o: UxDepositOrderModel) -> Seq<FieldModel> {
    seq![
        FieldModel::Static(zero_bytes(12) + addr_bytes(o.user)),
        FieldModel::Static(zero_bytes(12) + addr_bytes(o.input_token)),
        FieldModel::Static(be_bytes(u256_text_val(o.input_amount), 32)),
        FieldModel::Dynamic(outputs_enc(o.outputs)),
        FieldModel::Static(fixed_hash_of_text(o.destination_settler)->Some_0),
        FieldModel::Dynamic(bytes_array_enc(cd_bytes(o.destination_call_data))),
        FieldModel::Static(be_bytes(o.nonce as nat, 32)),
        FieldModel::Dynamic(bytes_enc(bytes_of_text(o.lifi_calldata)->Some_0)),
    ]
}

/// The canonical encoding of a deposit order.
pub open spec fn inner_enc(o: UxDepositOrderModel) -> Seq<u8> {
    tuple_enc(inner_fields(o))
}

/// The three fields of the outer order: deadline, type tag, inner
/// encoding as a dynamic byte string.
pub open spec fn outer_fields(fd: u32, tag: Seq<u8>, inner: Seq<u8>) -> Seq<FieldModel> {
    seq![
        FieldModel::Static(be_bytes(fd as nat, 32)),
        FieldModel::Static(tag),
        FieldModel::Dynamic(bytes_enc(inner)),
    ]
}

/// The canonical encoding of the outer order.
pub open spec fn outer_enc(fd: u32, tag: Seq<u8>, inner: Seq<u8>) -> Seq<u8> {
    tuple_enc(outer_fields(fd, tag, inner))
}

/// The type name a request asks for; absent, it defaults.
pub open spec fn requested_type_name(m: BuildIntentRequestModel) -> Seq<char> {
    match m.order_data_type {
        Some(s) => s,
        None => "UXDepositOrder"@,
    }
}

/// The first rejection a deposit order produces, checks in request order.
pub open spec fn order_error(o: UxDepositOrderModel) -> Option<ServiceErrorModel> {
    if !addr_text_valid(o.user) {
        Some(ServiceErrorModel::InvalidAddress(o.user))
    } else if !addr_text_valid(o.input_token) {
        Some(ServiceErrorModel::InvalidAddress(o.input_token))
    } else if !u256_text_valid(o.input_amount) {
        Some(ServiceErrorModel::InvalidNumber(o.input_amount))
    } else if o.outputs.len() == 0 {
        Some(ServiceErrorModel::SchemaMismatch("outputs must not be empty"@))
    } else if o.outputs.len() != o.destination_call_data.len() {
        Some(
            ServiceErrorModel::SchemaMismatch(
                "destinationCallData length must match outputs length"@,
            ),
        )
    } else if outputs_error(o.outputs, o.outputs.len() as int) is Some {
        outputs_error(o.outputs, o.outputs.len() as int)
    } else if fixed_hash_of_text(o.destination_settler) is None {
        Some(
            if stripped(o.destination_settler).len() == 40 {
                ServiceErrorModel::InvalidAddress(o.destination_settler)
            } else {
                ServiceErrorModel::InvalidFixedHash(o.destination_settler)
            },
        )
    } else if cd_error(o.destination_call_data, o.destination_call_data.len() as int) is Some {
        cd_error(o.destination_call_data, o.destination_call_data.len() as int)
    } else if bytes_of_text(o.lifi_calldata) is None {
        Some(ServiceErrorModel::InvalidBytes(stripped(o.lifi_calldata)))
    } else {
        None
    }
}

/// What a build request returns: the first rejection, or the response
/// with the tag, inner encoding and outer encoding rendered as hex.
pub open spec fn build_spec(m: BuildIntentRequestModel) -> Result<
    BuildIntentResponseModel,
    ServiceErrorModel,
> {
    match order_error(m.order_data) {
        Some(e) => Err(e),
        None => {
            let tag = resolve_tag_spec(requested_type_name(m));
            let inner = inner_enc(m.order_data);
            let outer = outer_enc(m.fill_deadline, tag, inner);
            Ok(
                BuildIntentResponseModel {
                    order_data_type: hex_text(tag),
                    order_data: hex_text(inner),
                    onchain_order: OnchainCrossChainOrderPayloadModel {
                        fill_deadline: m.fill_deadline,
                        order_data_type: hex_text(tag),
                        order_data: hex_text(outer),
                    },
                },
            )
        },
    }
}

proof fn lemma_outputs_error_persists(outs: Seq<UxOutputModel>, a: int, b: int)
    requires
        0 <= a <= b,
        outputs_error(outs, a) is Some,
    ensures
        outputs_error(outs, b) == outputs_error(outs, a),
    decreases b,
{
    if a < b {
        lemma_outputs_error_persists(outs, a, b - 1);
    }
}

proof fn lemma_cd_error_persists(cds: Seq<Seq<char>>, a: int, b: int)
    requires
        0 <= a <= b,
        cd_error(cds, a) is Some,
    ensures
        cd_error(cds, b) == cd_error(cds, a),
    decreases b,
{
    if a < b {
        lemma_cd_error_persists(cds, a, b - 1);
    }
}

proof fn lemma_output_words_len(o: UxOutputModel)
    requires
        output_error(o) is None,
    ensures
        output_words(o).len() == 128,
{
    lemma_be_bytes_len(u256_text_val(o.amount), 32);
    lemma_be_bytes_len(o.chain_id as nat, 32);
    lemma_hex_bytes_len(stripped(o.token));
    lemma_hex_bytes_len(stripped(o.recipient));
}

proof fn lemma_outputs_body_len(outs: Seq<UxOutputModel>, i: int)
    requires
        0 <= i <= outs.len(),
        outputs_error(outs, i) is None,
    ensures
        outputs_body(outs, i).len() == 128 * i,
    decreases i,
{
    if i > 0 {
        lemma_outputs_body_len(outs, i - 1);
        lemma_output_words_len(outs[i - 1]);
    }
}

/// Build the full response for one request: the resolved tag, the inner
/// order encoding, and the outer order, each rendered as prefixed hex.
#[verifier::loop_isolation(false)]
#[verifier::rlimit(100)]
pub fn build_onchain_order(payload: BuildIntentRequest) -> (r: Result<
    BuildIntentResponse,
    ServiceError,
>)
    ensures
        match r {
            Ok(resp) => build_spec(payload@) == Ok::<BuildIntentResponseModel, ServiceErrorModel>(
                resp@,
            ),
            Err(e) => build_spec(payload@) == Err::<BuildIntentResponseModel, ServiceErrorModel>(
                e@,
            ),
        },
{
    let ghost om = payload@.order_data;
    let mut user = match parse_address(payload.order_data.user.as_str()) {
        Ok(b) => b,
        Err(e) => {
            return Err(e);
        },
    };
    let mut input_token = match parse_address(payload.order_data.input_token.as_str()) {
        Ok(b) => b,
        Err(e) => {
            return Err(e);
        },
    };
    let input_amount = match parse_u256(payload.order_data.input_amount.as_str()) {
        Ok(b) => b,
        Err(e) => {
            return Err(e);
        },
    };
    let n_out = payload.order_data.outputs.len();
    if n_out == 0 {
        return Err(ServiceError::SchemaMismatch(String::from_str("outputs must not be empty")));
    }
    if n_out != payload.order_data.destination_call_data.len() {
        return Err(
            ServiceError::SchemaMismatch(
                String::from_str("destinationCallData length must match outputs length"),
            ),
        );
    }
    proof {
        assert(om.outputs.len() == n_out);
    }
    let mut outputs_blob = be_bytes_u64(n_out as u64, 32);
    let mut i: usize = 0;
    while i < n_out
        invariant
            om == payload@.order_data,
            n_out == om.outputs.len(),
            n_out == payload.order_data.outputs@.len(),
            i <= n_out,
            outputs_error(om.outputs, i as int) is None,
            outputs_blob@ == be_bytes(n_out as nat, 32) + outputs_body(om.outputs, i as int),
        decreases n_out - i,
    {
        proof {
            assert(om.outputs[i as int] == payload.order_data.outputs@[i as int]@);
        }
        let o = &payload.order_data.outputs[i];
        let mut token = match parse_b256_or_address(o.token.as_str()) {
            Ok(b) => b,
            Err(e) => {
                proof {
                    assert(outputs_error(om.outputs, i as int + 1) == Some(e@));
                    lemma_outputs_error_persists(om.outputs, i as int + 1, n_out as int);
                }
                return Err(e);
            },
        };
        let mut recipient = match parse_b256_or_address(o.recipient.as_str()) {
            Ok(b) => b,
            Err(e) => {
                proof {
                    assert(outputs_error(om.outputs, i as int + 1) == Some(e@));
                    lemma_outputs_error_persists(om.outputs, i as int + 1, n_out as int);
                }
                return Err(e);
            },
        };
        let mut amount = match parse_u256(o.amount.as_str()) {
            Ok(b) => b,
            Err(e) => {
                proof {
                    assert(outputs_error(om.outputs, i as int + 1) == Some(e@));
                    lemma_outputs_error_persists(om.outputs, i as int + 1, n_out as int);
                }
                return Err(e);
            },
        };
        let mut chain_word = be_bytes_u64(o.chain_id, 32);
        outputs_blob.append(&mut token);
        outputs_blob.append(&mut amount);
        outputs_blob.append(&mut recipient);
        outputs_blob.append(&mut chain_word);
        proof {
            assert(outputs_error(om.outputs, i as int + 1) is None);
            assert(outputs_blob@ =~= be_bytes(n_out as nat, 32) + outputs_body(
                om.outputs,
                i as int + 1,
            ));
        }
        i += 1;
    }
    let settler = match parse_b256_or_address(payload.order_data.destination_settler.as_str()) {
        Ok(b) => b,
        Err(e) => {
            return Err(e);
        },
    };
    let mut cds: Vec<Vec<u8>> = Vec::new();
    let mut j: usize = 0;
    while j < payload.order_data.destination_call_data.len()
        invariant
            om == payload@.order_data,
            j <= om.destination_call_data.len(),
            om.destination_call_data.len() == payload.order_data.destination_call_data@.len(),
            cd_error(om.destination_call_data, j as int) is None,
            cds@.len() == j,
            forall|k: int|
                0 <= k < j as int ==> #[trigger] cds@[k]@ == bytes_of_text(
                    om.destination_call_data[k],
                )->Some_0,
        decreases om.destination_call_data.len() - j,
    {
        proof {
            assert(om.destination_call_data[j as int]
                == payload.order_data.destination_call_data@[j as int]@);
        }
        let d = match parse_bytes(payload.order_data.destination_call_data[j].as_str()) {
            Ok(b) => b,
            Err(e) => {
                proof {
                    assert(cd_error(om.destination_call_data, j as int + 1) == Some(e@));
                    lemma_cd_error_persists(
                        om.destination_call_data,
                        j as int + 1,
                        om.destination_call_data.len() as int,
                    );
                }
                return Err(e);
            },
        };
        cds.push(d);
        j += 1;
    }
    let lifi = match parse_bytes(payload.order_data.lifi_calldata.as_str()) {
        Ok(b) => b,
        Err(e) => {
            return Err(e);
        },
    };

    // Inner order: eight fields in declaration order.
    let mut user_word: Vec<u8> = vec![0u8; 12];
    proof {
        assert(user_word@ =~= zero_bytes(12));
    }
    user_word.append(&mut user);
    let mut token_word: Vec<u8> = vec![0u8; 12];
    proof {
        assert(token_word@ =~= zero_bytes(12));
    }
    token_word.append(&mut input_token);
    let cd_blob = encode_bytes_array(&cds);
    let lifi_blob = encode_bytes(&lifi);
    let nonce_word = be_bytes_u64(payload.order_data.nonce, 32);
    let mut fields: Vec<AbiField> = Vec::new();
    fields.push(AbiField::Static(user_word));
    fields.push(AbiField::Static(token_word));
    fields.push(AbiField::Static(input_amount));
    fields.push(AbiField::Dynamic(outputs_blob));
    fields.push(AbiField::Static(settler));
    fields.push(AbiField::Dynamic(cd_blob));
    fields.push(AbiField::Static(nonce_word));
    fields.push(AbiField::Dynamic(lifi_blob));
    proof {
        assert(byte_seqs(cds@) =~= cd_bytes(om.destination_call_data));
        assert(zero_bytes(12) =~= Seq::new(12, |q: int| 0u8));
        lemma_hex_bytes_len(stripped(om.user));
        lemma_hex_bytes_len(stripped(om.input_token));
        lemma_be_bytes_len(u256_text_val(om.input_amount), 32);
        lemma_be_bytes_len(om.nonce as nat, 32);
        lemma_be_bytes_len(n_out as nat, 32);
        lemma_outputs_body_len(om.outputs, n_out as int);
        lemma_bytes_enc_len(bytes_of_text(om.lifi_calldata)->Some_0);
        assert forall|q: int| 0 <= q < bytes_fields(cd_bytes(om.destination_call_data)).len()
            implies field_wf(#[trigger] bytes_fields(cd_bytes(om.destination_call_data))[q]) by {
            lemma_bytes_enc_len(cd_bytes(om.destination_call_data)[q]);
        }
        lemma_tuple_enc_len(bytes_fields(cd_bytes(om.destination_call_data)));
        assert(outputs_enc(om.outputs).len() == 32 + 128 * (n_out as int));
        assert((32 + 128 * (n_out as int)) % 32 == 0) by {
            vstd::arithmetic::div_mod::lemma_mod_multiples_basic(4 * (n_out as int), 32);
            vstd::arithmetic::div_mod::lemma_add_mod_noop(32, 128 * (n_out as int), 32);
        }
        assert(bytes_array_enc(cd_bytes(om.destination_call_data)).len() % 32 == 0) by {
            let tl = tuple_enc(bytes_fields(cd_bytes(om.destination_call_data))).len();
            vstd::arithmetic::div_mod::lemma_add_mod_noop(32, tl as int, 32);
        }
        assert(models(fields@) =~= inner_fields(om));
        assert(fields_wf(inner_fields(om))) by {
            assert forall|q: int| 0 <= q < inner_fields(om).len() implies field_wf(
                #[trigger] inner_fields(om)[q],
            ) by {
                lemma_hex_bytes_len(stripped(om.destination_settler));
            }
        }
    }
    let inner = encode_tuple(&fields);

    // Type tag.
    let name: &str = match &payload.order_data_type {
        Some(s) => s.as_str(),
        None => "UXDepositOrder",
    };
    proof {
        assert(name@ == requested_type_name(payload@));
    }
    let tag = resolve_order_data_type(name);

    // Outer order: deadline, tag, inner encoding as byte string.
    let fd_word = be_bytes_u64(payload.fill_deadline as u64, 32);
    let tag_word = copy_bytes(&tag);
    let inner_blob = encode_bytes(&inner);
    let mut outer_fs: Vec<AbiField> = Vec::new();
    outer_fs.push(AbiField::Static(fd_word));
    outer_fs.push(AbiField::Static(tag_word));
    outer_fs.push(AbiField::Dynamic(inner_blob));
    proof {
        let ofs = outer_fields(payload.fill_deadline, tag@, inner@);
        assert(models(outer_fs@) =~= ofs);
        lemma_be_bytes_len(payload.fill_deadline as nat, 32);
        lemma_bytes_enc_len(inner@);
        assert(fields_wf(ofs)) by {
            assert forall|q: int| 0 <= q < ofs.len() implies field_wf(#[trigger] ofs[q]) by {}
        }
    }
    let outer = encode_tuple(&outer_fs);

    let tag_hex = format_hex(&tag);
    let inner_hex = format_hex(&inner);
    let outer_hex = format_hex(&outer);
    let tag_hex_onchain = tag_hex.clone();
    Ok(
        BuildIntentResponse {
            order_data_type: tag_hex,
            order_data: inner_hex,
            onchain_order: OnchainCrossChainOrderPayload {
                fill_deadline: payload.fill_deadline,
                order_data_type: tag_hex_onchain,
                order_data: outer_hex,
            },
        },
    )
}

/// Build the response together with the calldata a caller submits: the
/// outer encoding itself.
pub fn build_open_calldata(payload: BuildIntentRequest) -> (r: Result<
    (BuildIntentResponse, String),
    ServiceError,
>)
    ensures
        match r {
            Ok(p) => build_spec(payload@) == Ok::<BuildIntentResponseModel, ServiceErrorModel>(
                p.0@,
            ) && p.1@ == p.0@.onchain_order.order_data,
            Err(e) => build_spec(payload@) == Err::<BuildIntentResponseModel, ServiceErrorModel>(
                e@,
            ),
        },
{
    let resp = match build_onchain_order(payload) {
        Ok(resp) => resp,
        Err(e) => {
            return Err(e);
        },
    };
    let data = resp.onchain_order.order_data.clone();
    Ok((resp, data))
}

/// Build the calldata response against the configured settlement
/// contract; without one the request is rejected, untouched.
pub fn build_calldata_response(origin_settler: Option<String>, payload: BuildIntentRequest) -> (r:
    Result<BuildCalldataResponse, ServiceError>)
    ensures
        match r {
            Ok(resp) => origin_settler is Some && resp.to@ == origin_settler->Some_0@ && build_spec(
                payload@,
            ) is Ok && resp.order_data_type@ == build_spec(payload@)->Ok_0.order_data_type
                && resp.order_data@ == build_spec(payload@)->Ok_0.order_data && resp.onchain_order@
                == build_spec(payload@)->Ok_0.onchain_order && resp.data@ == build_spec(
                payload@,
            )->Ok_0.onchain_order.order_data,
            Err(e) => (origin_settler is None && e@ == ServiceErrorModel::MissingConfiguration) || (
            origin_settler is Some && build_spec(payload@) == Err::<
                BuildIntentResponseModel,
                ServiceErrorModel,
            >(e@)),
        },
{
    let origin = match origin_settler {
        Some(o) => o,
        None => {
            return Err(ServiceError::MissingConfiguration);
        },
    };
    let (intent, data) = match build_open_calldata(payload) {
        Ok(p) => p,
        Err(e) => {
            return Err(e);
        },
    };
    Ok(
        BuildCalldataResponse {
            to: origin,
            data,
            order_data_type: intent.order_data_type,
            order_data: intent.order_data,
            onchain_order: intent.onchain_order,
        },
    )
}

} // verus!
