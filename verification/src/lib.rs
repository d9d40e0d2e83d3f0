//! Listen transports, command line and per-session message routing of the
//! Codex MCP server.
pub mod address_laws;
pub mod args;
pub mod args_laws;
pub mod http_runtime;
pub mod number;
pub mod outgoing_message;
pub mod server_info;
pub mod session_laws;
pub mod session_runtime;
pub mod socket_addr;
pub mod text;
pub mod transport;

pub use args::{CliConfigOverrides, McpServerArgs, McpServerArgsError, OsArg};
pub use session_runtime::SessionRuntime;
pub use socket_addr::SocketAddr;
pub use transport::{McpListenTransport, McpListenTransportParseError};
