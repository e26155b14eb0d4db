//! What the server takes from `rmcp`: the two kinds of answer to a tool call,
//! and the description that a client receives when it connects.

use rmcp::model::{
    CallToolResult, Content, ErrorData, Implementation, InitializeResult, ProtocolVersion,
    ServerCapabilities,
};
use vstd::prelude::*;

verus! {

/// The answer to a tool call that ran, as `rmcp` holds it.
#[verifier::external_type_specification]
#[verifier::external_body]
pub struct ExCallToolResult(CallToolResult);

/// The protocol error that answers a tool call that did not run, as `rmcp`
/// holds it.
#[verifier::external_type_specification]
#[verifier::external_body]
pub struct ExErrorData(ErrorData);

/// The description of a server, as `rmcp` holds it (`rmcp` also calls it
/// `ServerInfo`).
#[verifier::external_type_specification]
#[verifier::external_body]
pub struct ExInitializeResult(InitializeResult);

/// The successful result whose only content is one block of unannotated
/// `text`: not flagged as an error, without structured content or metadata.
pub uninterp spec fn success_with_text(text: Seq<char>) -> CallToolResult;

/// The protocol error with the JSON-RPC code for internal errors, the given
/// `message` and no further data.
pub uninterp spec fn internal_error_with(message: Seq<char>) -> ErrorData;

/// A revision of the protocol, by the date it goes by.
#[derive(Clone, Copy, Debug, PartialEq, Eq, Structural)]
pub enum Protocol {
    V20241105,
    V20250326,
    V20250618,
    V20251125,
    V20260728,
}

/// What a server offers its clients.
#[derive(Clone, Copy, Debug, PartialEq, Eq, Structural)]
pub enum Offer {
    /// No capability at all.
    Nothing,
    /// Tools, and no other capability.
    Tools,
}

/// The description of a server that goes by `name` and `version`, speaks the
/// `protocol` revision, has the capabilities of the `offer` and no others, and
/// has `instructions` for its clients.
pub uninterp spec fn server_description(
    name: Seq<char>,
    version: Seq<char>,
    protocol: Protocol,
    offer: Offer,
    instructions: Seq<char>,
) -> InitializeResult;

/// Calls `CallToolResult::success` on the one content block that
/// `Content::text` makes of `text`. The contract claims that the result is
/// determined by that text; both functions only fill in fields.
#[verifier::external_body]
pub(crate) fn text_result(text: String) -> (result: CallToolResult)
    ensures
        result == success_with_text(text@),
{
    CallToolResult::success(vec![Content::text(text)])
}

/// Calls `ErrorData::internal_error` without data. The contract claims that
/// the error is determined by `message`.
#[verifier::external_body]
pub(crate) fn internal_error(message: String) -> (error: ErrorData)
    ensures
        error == internal_error_with(message@),
{
    ErrorData::internal_error(message, None)
}

/// Calls `InitializeResult::new` and its three setters, on the constant of
/// `ProtocolVersion` for the revision, the `ServerCapabilities` for the offer
/// and what `Implementation::new` makes of name and version. All of them only
/// fill in fields, and between them they fill in every field, so the contract
/// claims that the description is determined by the five arguments.
#[verifier::external_body]
pub(crate) fn server_info(
    name: String,
    version: String,
    protocol: Protocol,
    offer: Offer,
    instructions: String,
) -> (info: InitializeResult)
    ensures
        info == server_description(name@, version@, protocol, offer, instructions@),
{
    let revision = match protocol {
        Protocol::V20241105 => ProtocolVersion::V_2024_11_05,
        Protocol::V20250326 => ProtocolVersion::V_2025_03_26,
        Protocol::V20250618 => ProtocolVersion::V_2025_06_18,
        Protocol::V20251125 => ProtocolVersion::V_2025_11_25,
        Protocol::V20260728 => ProtocolVersion::V_2026_07_28,
    };
    let capabilities = match offer {
        Offer::Nothing => ServerCapabilities::builder().build(),
        Offer::Tools => ServerCapabilities::builder().enable_tools().build(),
    };
    InitializeResult::new(capabilities)
        .with_server_info(Implementation::new(name, version))
        .with_protocol_version(revision)
        .with_instructions(instructions)
}

} // verus!
