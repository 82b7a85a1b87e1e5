//! Data types of the Model Context Protocol (JSON-RPC 2.0 messages) that
//! carry only text, integers and flags.

use vstd::prelude::*;

verus! {

/// Protocol revision these types follow.
pub const LATEST_PROTOCOL_VERSION: &'static str = "2025-03-26";

/// JSON-RPC version of every message.
pub const JSONRPC_VERSION: &'static str = "2.0";

/// Standard JSON-RPC error code: the message is not valid JSON.
pub const PARSE_ERROR: i64 = -32700;

/// Standard JSON-RPC error code: the JSON is not a valid request.
pub const INVALID_REQUEST: i64 = -32600;

/// Standard JSON-RPC error code: no such method.
pub const METHOD_NOT_FOUND: i64 = -32601;

/// Standard JSON-RPC error code: invalid method parameters.
pub const INVALID_PARAMS: i64 = -32602;

/// Standard JSON-RPC error code: internal error.
pub const INTERNAL_ERROR: i64 = -32603;

/// One of two alternatives (an untagged union on the wire).
#[derive(Debug)]
pub enum Either<A, B> {
    Left(A),
    Right(B),
}

/// Token that ties progress notifications to the request they report on.
pub type ProgressToken = Either<String, i64>;

/// Opaque pagination cursor.
pub type Cursor = String;

/// Identifier of a JSON-RPC request.
pub type RequestId = Either<String, i64>;

/// Metadata of a request (`_meta`).
#[derive(Debug)]
pub struct MetaParams {
    pub progress_token: Option<ProgressToken>,
}

/// Sent by either side to cancel a request it sent earlier.
#[derive(Debug)]
pub struct CancelledNotification {
    pub method: &'static str,
    pub params: CancelledParams,
}

/// Parameters of a cancellation.
#[derive(Debug)]
pub struct CancelledParams {
    pub request_id: RequestId,
    pub reason: Option<String>,
}

/// Sent by the client once initialization has finished.
#[derive(Debug)]
pub struct InitializedNotification {
    pub method: &'static str,
}

/// Client capability for roots.
#[derive(Debug)]
pub struct RootsCapabilities {
    pub list_changed: Option<bool>,
}

/// Server capability for prompts.
#[derive(Debug)]
pub struct PromptsCapabilities {
    pub list_changed: Option<bool>,
}

/// Server capability for resources.
#[derive(Debug)]
pub struct ResourcesCapabilities {
    pub subscribe: Option<bool>,
    pub list_changed: Option<bool>,
}

/// Server capability for tools.
#[derive(Debug)]
pub struct ToolsCapabilities {
    pub list_changed: Option<bool>,
}

/// Name and version of an implementation of the protocol.
#[derive(Debug)]
pub struct Implementation {
    pub name: String,
    pub version: String,
}

/// Heartbeat; the receiver must answer at once.
#[derive(Debug)]
pub struct PingRequest {
    pub method: &'static str,
}

/// A request that takes a pagination cursor.
#[derive(Debug)]
pub struct PaginatedRequest {
    pub method: String,
    pub params: Option<PaginatedParams>,
}

/// Parameters of a paginated request.
#[derive(Debug)]
pub struct PaginatedParams {
    pub cursor: Option<Cursor>,
}

/// Asks for the server's resources.
#[derive(Debug)]
pub struct ListResourcesRequest {
    pub method: &'static str,
    pub paginated_request: PaginatedRequest,
}

/// Asks for the server's resource templates.
#[derive(Debug)]
pub struct ListResourceTemplatesRequest {
    pub method: &'static str,
    pub paginated_request: PaginatedRequest,
}

/// Asks the server to read one resource.
#[derive(Debug)]
pub struct ReadResourceRequest {
    pub method: &'static str,
    pub params: ReadResourceParams,
}

/// Parameters of a read.
#[derive(Debug)]
pub struct ReadResourceParams {
    pub uri: String,
}

/// Tells the client that the list of resources changed.
#[derive(Debug)]
pub struct ResourceListChangedNotification {
    pub method: &'static str,
}

/// Subscribes to updates of one resource.
#[derive(Debug)]
pub struct SubscribeRequest {
    pub method: &'static str,
    pub params: SubscribeParams,
}

/// Parameters of a subscription.
#[derive(Debug)]
pub struct SubscribeParams {
    pub uri: String,
}

/// Ends a subscription.
#[derive(Debug)]
pub struct UnsubscribeRequest {
    pub method: &'static str,
    pub params: UnsubscribeParams,
}

/// Parameters of an unsubscription.
#[derive(Debug)]
pub struct UnsubscribeParams {
    pub uri: String,
}

/// Tells a subscribed client that a resource changed.
#[derive(Debug)]
pub struct ResourceUpdatedNotification {
    pub method: &'static str,
    pub params: ResourceUpdatedParams,
}

/// Parameters of a resource update.
#[derive(Debug)]
pub struct ResourceUpdatedParams {
    pub uri: String,
}

/// Contents of a resource: text or a base64 blob.
#[derive(Debug)]
pub enum ResourceContents {
    Text(TextResourceContents),
    Blob(BlobResourceContents),
}

/// Text contents of a resource.
#[derive(Debug)]
pub struct TextResourceContents {
    pub uri: String,
    pub mime_type: Option<String>,
    pub text: String,
}

/// Binary contents of a resource, base64-encoded.
#[derive(Debug)]
pub struct BlobResourceContents {
    pub uri: String,
    pub mime_type: Option<String>,
    pub blob: String,
}

/// Asks for the server's prompts.
#[derive(Debug)]
pub struct ListPromptsRequest {
    pub method: &'static str,
    pub paginated_request: PaginatedRequest,
}

/// A prompt or prompt template that the server offers.
#[derive(Debug)]
pub struct Prompt {
    pub name: String,
    pub description: Option<String>,
    pub arguments: Option<Vec<PromptArgument>>,
}

/// An argument that a prompt accepts.
#[derive(Debug)]
pub struct PromptArgument {
    pub name: String,
    pub description: Option<String>,
    pub required: Option<bool>,
}

/// Sender or receiver of a message in a conversation.
#[derive(Debug)]
pub enum Role {
    User,
    Assistant,
}

/// Tells the client that the list of prompts changed.
#[derive(Debug)]
pub struct PromptListChangedNotification {
    pub method: &'static str,
}

/// Asks for the server's tools.
#[derive(Debug)]
pub struct ListToolsRequest {
    pub method: &'static str,
    pub paginated_request: PaginatedRequest,
}

/// Tells the client that the list of tools changed.
#[derive(Debug)]
pub struct ToolListChangedNotification {
    pub method: &'static str,
}

/// Hints about a tool's behavior; none of them is guaranteed.
#[derive(Debug)]
pub struct ToolAnnotations {
    pub title: Option<String>,
    pub read_only_hint: Option<bool>,
    pub destructive_hint: Option<bool>,
    pub idempotent_hint: Option<bool>,
    pub open_world_hint: Option<bool>,
}

/// Sets the level of the log messages the server sends.
#[derive(Debug)]
pub struct SetLevelRequest {
    pub method: &'static str,
    pub params: SetLevelParams,
}

/// Parameters of a log level change.
#[derive(Debug)]
pub struct SetLevelParams {
    pub level: LoggingLevel,
}

/// Severity of a log message (the syslog severities of RFC 5424).
#[derive(Debug)]
pub enum LoggingLevel {
    Debug,
    Info,
    Notice,
    Warning,
    Error,
    Critical,
    Alert,
    Emergency,
}

/// A hint for model selection.
#[derive(Debug)]
pub struct ModelHint {
    pub name: Option<String>,
}

/// Asks the server for completion options.
#[derive(Debug)]
pub struct CompleteRequest {
    pub method: &'static str,
    pub params: CompleteParams,
}

/// Parameters of a completion request; `ref_` is sent as `ref`.
#[derive(Debug)]
pub struct CompleteParams {
    pub ref_: Either<PromptReference, ResourceReference>,
    pub argument: ArgumentInfo,
}

/// The argument that is being completed.
#[derive(Debug)]
pub struct ArgumentInfo {
    pub name: String,
    pub value: String,
}

/// The completion options.
#[derive(Debug)]
pub struct CompletionInfo {
    pub values: Vec<String>,
    pub total: Option<i64>,
    pub has_more: Option<bool>,
}

/// Reference to a resource or resource template; `type_` is sent as `type`.
#[derive(Debug)]
pub struct ResourceReference {
    pub type_: &'static str,
    pub uri: String,
}

/// Reference to a prompt; `type_` is sent as `type`.
#[derive(Debug)]
pub struct PromptReference {
    pub type_: &'static str,
    pub name: String,
}

/// Asks the client for its root URIs.
#[derive(Debug)]
pub struct ListRootsRequest {
    pub method: &'static str,
}

/// A root directory or file that the server may work on.
#[derive(Debug)]
pub struct Root {
    pub uri: String,
    pub name: Option<String>,
}

/// Tells the server that the list of roots changed.
#[derive(Debug)]
pub struct RootsListChangedNotification {
    pub method: &'static str,
}

} // verus!
