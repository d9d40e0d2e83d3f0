//! What the HTTP server answers at which path.
use vstd::prelude::*;

use crate::text::same_text;
#[allow(unused_imports)]
use crate::transport::{transport, TransportModel};

verus! {

/// The path that tells whether the server is alive.
pub const HEALTH_PATH: &'static str = "/healthz";

/// The path that tells whether the server is ready.
pub const READINESS_PATH: &'static str = "/readyz";

/// What answers a request.
#[derive(Clone, Copy, Debug, PartialEq, Eq, Structural)]
pub enum Endpoint {
    /// The health and readiness checks.
    Probe,
    /// The MCP handler.
    Mcp,
    /// Nothing.
    NotFound,
}

/// What answers at a path of a server whose MCP endpoint is at `mcp_path`.
/// The checks keep their paths even where the MCP endpoint asks for one.
pub open spec fn endpoint_at(mcp_path: Seq<char>, path: Seq<char>) -> Endpoint {
    if path == HEALTH_PATH@ || path == READINESS_PATH@ {
        Endpoint::Probe
    } else if path == mcp_path {
        Endpoint::Mcp
    } else {
        Endpoint::NotFound
    }
}

/// The checks are answered wherever the MCP endpoint is.
pub proof fn checks_are_always_served(mcp_path: Seq<char>)
    ensures
        endpoint_at(mcp_path, HEALTH_PATH@) == Endpoint::Probe,
        endpoint_at(mcp_path, READINESS_PATH@) == Endpoint::Probe,
{
}

/// The MCP endpoint is served at the path that the listen URL gives, unless
/// that is the path of a check, and nowhere else.
pub proof fn mcp_is_served_at_the_listen_path(listen_url: Seq<char>, path: Seq<char>)
    requires
        transport(listen_url) matches Ok(TransportModel::Http { .. }),
    ensures
        endpoint_at(transport(listen_url)->Ok_0->path, path) == Endpoint::Mcp <==> {
            &&& path == transport(listen_url)->Ok_0->path
            &&& path != HEALTH_PATH@
            &&& path != READINESS_PATH@
        },
{
}

/// Finds what answers at `path`.
pub fn endpoint(mcp_path: &str, path: &str) -> (answer: Endpoint)
    ensures
        answer == endpoint_at(mcp_path@, path@),
{
    if same_text(path, HEALTH_PATH) || same_text(path, READINESS_PATH) {
        Endpoint::Probe
    } else if same_text(path, mcp_path) {
        Endpoint::Mcp
    } else {
        Endpoint::NotFound
    }
}

/// Every path has one answer: the checks are at `/healthz` and `/readyz` and
/// nowhere else, the MCP endpoint is at its own path alone, and there is
/// nothing at any other path.
pub proof fn every_path_has_its_answer(mcp_path: Seq<char>, path: Seq<char>)
    ensures
        endpoint_at(mcp_path, path) is Probe <==> path == "/healthz"@ || path == "/readyz"@,
        endpoint_at(mcp_path, path) is Mcp <==> path == mcp_path && path != "/healthz"@ && path
            != "/readyz"@,
        endpoint_at(mcp_path, path) is NotFound <==> path != mcp_path && path != "/healthz"@ && path
            != "/readyz"@,
{
}

/// Moving the MCP endpoint changes the answer at its old and its new path and
/// at no other.
pub proof fn moving_the_endpoint_touches_two_paths(
    old_path: Seq<char>,
    new_path: Seq<char>,
    path: Seq<char>,
)
    requires
        path != old_path,
        path != new_path,
    ensures
        endpoint_at(old_path, path) == endpoint_at(new_path, path),
{
}

} // verus!
