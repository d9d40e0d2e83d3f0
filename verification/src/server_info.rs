//! What the server says of itself in the handshake.
use vstd::prelude::*;

verus! {

/// The name of the server.
pub const SERVER_NAME: &'static str = "codex-mcp-server";

/// The name of the server for display.
pub const SERVER_TITLE: &'static str = "Codex";

/// The version of this package.
pub const SERVER_VERSION: &'static str = "0.0.0";

/// What the server offers about tools.
#[derive(Clone, Copy, Debug, PartialEq, Eq)]
pub struct ToolsCapability {
    /// Whether it tells when its list of tools changes.
    pub list_changed: Option<bool>,
}

/// What the server offers.
#[derive(Clone, Copy, Debug, PartialEq, Eq)]
pub struct ServerCapabilities {
    pub tools: Option<ToolsCapability>,
}

/// Which program the server is.
#[derive(Clone, Debug, PartialEq, Eq)]
pub struct Implementation {
    pub name: String,
    pub title: Option<String>,
    pub version: String,
    pub description: Option<String>,
    pub website_url: Option<String>,
}

/// The answer to the handshake.
#[derive(Clone, Debug, PartialEq, Eq)]
pub struct ServerInfo {
    pub protocol_version: String,
    pub capabilities: ServerCapabilities,
    pub server_info: Implementation,
    pub instructions: Option<String>,
}

/// The text of rmcp's `ProtocolVersion::V_2025_03_26`, written with its
/// `Display`. What is claimed of it: it is `2025-03-26`.
#[verifier::external_body]
fn protocol_version_text() -> (text: String)
    ensures
        text@ == "2025-03-26"@,
{
    rmcp::model::ProtocolVersion::V_2025_03_26.to_string()
}

/// Whether this is what the server says of itself: its protocol version, its
/// name, title and version, that it announces changes of its tool list, and
/// nothing else.
pub open spec fn is_server_info(info: ServerInfo) -> bool {
    &&& info.protocol_version@ == "2025-03-26"@
    &&& info.capabilities == (ServerCapabilities {
        tools: Some(ToolsCapability { list_changed: Some(true) }),
    })
    &&& info.server_info.name@ == SERVER_NAME@
    &&& info.server_info.title is Some
    &&& info.server_info.title->0@ == SERVER_TITLE@
    &&& info.server_info.version@ == SERVER_VERSION@
    &&& info.server_info.description is None
    &&& info.server_info.website_url is None
    &&& info.instructions is None
}

/// What the server says of itself.
pub fn get_info() -> (info: ServerInfo)
    ensures
        is_server_info(info),
{
    ServerInfo {
        protocol_version: protocol_version_text(),
        capabilities: ServerCapabilities {
            tools: Some(ToolsCapability { list_changed: Some(true) }),
        },
        server_info: Implementation {
            name: SERVER_NAME.to_owned(),
            title: Some(SERVER_TITLE.to_owned()),
            version: SERVER_VERSION.to_owned(),
            description: None,
            website_url: None,
        },
        instructions: None,
    }
}

/// The server says the same of itself every time, in every part: protocol
/// version `2025-03-26`, `codex-mcp-server` with the title `Codex` at version
/// `0.0.0`, changes of its tool list announced, and nothing besides.
pub proof fn the_server_has_one_description(a: ServerInfo, b: ServerInfo)
    requires
        is_server_info(a),
        is_server_info(b),
    ensures
        a.protocol_version@ == "2025-03-26"@ && b.protocol_version@ == "2025-03-26"@,
        a.capabilities == b.capabilities,
        a.capabilities.tools == Some(ToolsCapability { list_changed: Some(true) }),
        a.server_info.name@ == "codex-mcp-server"@ && b.server_info.name@ == "codex-mcp-server"@,
        a.server_info.title is Some && b.server_info.title is Some,
        a.server_info.title->0@ == "Codex"@ && b.server_info.title->0@ == "Codex"@,
        a.server_info.version@ == "0.0.0"@ && b.server_info.version@ == "0.0.0"@,
        a.server_info.description is None && b.server_info.description is None,
        a.server_info.website_url is None && b.server_info.website_url is None,
        a.instructions is None && b.instructions is None,
{
}

} // verus!
