//! Request and response shapes of the order codec, and its error taxonomy.
//!
//! Every value is request-scoped and immutable: the codec constructs a
//! response from one request and retains nothing.

use vstd::prelude::*;
use vstd::string::*;

verus! {

/// One requested output leg of a deposit order, in textual form.
#[derive(Debug, Clone)]
pub struct UxOutput {
    pub token: String,
    pub amount: String,
    pub recipient: String,
    pub chain_id: u64,
}

pub ghost struct UxOutputModel {
    pub token: Seq<char>,
    pub amount: Seq<char>,
    pub recipient: Seq<char>,
    pub chain_id: u64,
}

impl View for UxOutput {
    type V = UxOutputModel;

    open spec fn view(&self) -> UxOutputModel {
        UxOutputModel {
            token: self.token@,
            amount: self.amount@,
            recipient: self.recipient@,
            chain_id: self.chain_id,
        }
    }
}

/// A deposit order as a client writes it: addresses, hashes, numbers and
/// byte strings in textual form.
#[derive(Debug, Clone)]
pub struct UxDepositOrder {
    pub user: String,
    pub input_token: String,
    pub input_amount: String,
    pub outputs: Vec<UxOutput>,
    pub destination_settler: String,
    pub destination_call_data: Vec<String>,
    pub nonce: u64,
    pub lifi_calldata: String,
}

pub ghost struct UxDepositOrderModel {
    pub user: Seq<char>,
    pub input_token: Seq<char>,
    pub input_amount: Seq<char>,
    pub outputs: Seq<UxOutputModel>,
    pub destination_settler: Seq<char>,
    pub destination_call_data: Seq<Seq<char>>,
    pub nonce: u64,
    pub lifi_calldata: Seq<char>,
}

impl View for UxDepositOrder {
    type V = UxDepositOrderModel;

    open spec fn view(&self) -> UxDepositOrderModel {
        UxDepositOrderModel {
            user: self.user@,
            input_token: self.input_token@,
            input_amount: self.input_amount@,
            outputs: self.outputs@.map_values(|o: UxOutput| o@),
            destination_settler: self.destination_settler@,
            destination_call_data: self.destination_call_data@.map_values(|s: String| s@),
            nonce: self.nonce,
            lifi_calldata: self.lifi_calldata@,
        }
    }
}

/// A request to build an encoded order.
#[derive(Debug, Clone)]
pub struct BuildIntentRequest {
    pub fill_deadline: u32,
    pub order_data_type: Option<String>,
    pub order_data: UxDepositOrder,
}

pub ghost struct BuildIntentRequestModel {
    pub fill_deadline: u32,
    pub order_data_type: Option<Seq<char>>,
    pub order_data: UxDepositOrderModel,
}

impl View for BuildIntentRequest {
    type V = BuildIntentRequestModel;

    open spec fn view(&self) -> BuildIntentRequestModel {
        BuildIntentRequestModel {
            fill_deadline: self.fill_deadline,
            order_data_type: match self.order_data_type {
                Some(s) => Some(s@),
                None => None,
            },
            order_data: self.order_data@,
        }
    }
}

/// The outer order as transported: every byte buffer rendered as
/// "0x"-prefixed lowercase hex.
#[derive(Debug, Clone)]
pub struct OnchainCrossChainOrderPayload {
    pub fill_deadline: u32,
    pub order_data_type: String,
    pub order_data: String,
}

pub ghost struct OnchainCrossChainOrderPayloadModel {
    pub fill_deadline: u32,
    pub order_data_type: Seq<char>,
    pub order_data: Seq<char>,
}

impl View for OnchainCrossChainOrderPayload {
    type V = OnchainCrossChainOrderPayloadModel;

    open spec fn view(&self) -> OnchainCrossChainOrderPayloadModel {
        OnchainCrossChainOrderPayloadModel {
            fill_deadline: self.fill_deadline,
            order_data_type: self.order_data_type@,
            order_data: self.order_data@,
        }
    }
}

/// The response to a build request: the resolved type tag, the inner
/// order's encoding, and the outer order.
#[derive(Debug, Clone)]
pub struct BuildIntentResponse {
    pub order_data_type: String,
    pub order_data: String,
    pub onchain_order: OnchainCrossChainOrderPayload,
}

pub ghost struct BuildIntentResponseModel {
    pub order_data_type: Seq<char>,
    pub order_data: Seq<char>,
    pub onchain_order: OnchainCrossChainOrderPayloadModel,
}

impl View for BuildIntentResponse {
    type V = BuildIntentResponseModel;

    open spec fn view(&self) -> BuildIntentResponseModel {
        BuildIntentResponseModel {
            order_data_type: self.order_data_type@,
            order_data: self.order_data@,
            onchain_order: self.onchain_order@,
        }
    }
}

/// The build response together with the transaction fields a caller
/// submits: the configured settlement contract and the outer encoding.
#[derive(Debug, Clone)]
pub struct BuildCalldataResponse {
    pub to: String,
    pub data: String,
    pub order_data_type: String,
    pub order_data: String,
    pub onchain_order: OnchainCrossChainOrderPayload,
}

/// Service liveness report.
#[derive(Debug, Clone)]
pub struct HealthResponse {
    pub status: String,
}

/// Why a request was rejected. Every variant aborts the request with no
/// partial output; the carried text identifies the offending value.
#[derive(Debug, Clone)]
pub enum ServiceError {
    InvalidAddress(String),
    InvalidFixedHash(String),
    InvalidNumber(String),
    InvalidBytes(String),
    SchemaMismatch(String),
    MissingConfiguration,
}

pub ghost enum ServiceErrorModel {
    InvalidAddress(Seq<char>),
    InvalidFixedHash(Seq<char>),
    InvalidNumber(Seq<char>),
    InvalidBytes(Seq<char>),
    SchemaMismatch(Seq<char>),
    MissingConfiguration,
}

impl View for ServiceError {
    type V = ServiceErrorModel;

    open spec fn view(&self) -> ServiceErrorModel {
        match self {
            ServiceError::InvalidAddress(v) => ServiceErrorModel::InvalidAddress(v@),
            ServiceError::InvalidFixedHash(v) => ServiceErrorModel::InvalidFixedHash(v@),
            ServiceError::InvalidNumber(v) => ServiceErrorModel::InvalidNumber(v@),
            ServiceError::InvalidBytes(v) => ServiceErrorModel::InvalidBytes(v@),
            ServiceError::SchemaMismatch(v) => ServiceErrorModel::SchemaMismatch(v@),
            ServiceError::MissingConfiguration => ServiceErrorModel::MissingConfiguration,
        }
    }
}

pub open spec fn error_message(e: ServiceErrorModel) -> Seq<char> {
    match e {
        ServiceErrorModel::InvalidAddress(v) => "invalid address: "@ + v,
        ServiceErrorModel::InvalidFixedHash(v) => "invalid bytes32: "@ + v,
        ServiceErrorModel::InvalidNumber(v) => "invalid uint256: "@ + v,
        ServiceErrorModel::InvalidBytes(v) => "invalid bytes: "@ + v,
        ServiceErrorModel::SchemaMismatch(v) => v,
        ServiceErrorModel::MissingConfiguration => "origin settler is not configured"@,
    }
}

impl ServiceError {
    /// Human-readable description of the rejection.
    pub fn message(&self) -> (r: String)
        ensures
            r@ == error_message(self@),
    {
        match self {
            ServiceError::InvalidAddress(v) => {
                let mut m = String::from_str("invalid address: ");
                m.append(v.as_str());
                m
            },
            ServiceError::InvalidFixedHash(v) => {
                let mut m = String::from_str("invalid bytes32: ");
                m.append(v.as_str());
                m
            },
            ServiceError::InvalidNumber(v) => {
                let mut m = String::from_str("invalid uint256: ");
                m.append(v.as_str());
                m
            },
            ServiceError::InvalidBytes(v) => {
                let mut m = String::from_str("invalid bytes: ");
                m.append(v.as_str());
                m
            },
            ServiceError::SchemaMismatch(v) => {
                let mut m = String::new();
                m.append(v.as_str());
                m
            },
            ServiceError::MissingConfiguration => String::from_str(
                "origin settler is not configured",
            ),
        }
    }
}

} // verus!
