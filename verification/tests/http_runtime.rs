use codex_mcp_server::http_runtime::{endpoint, Endpoint, HEALTH_PATH, READINESS_PATH};

#[test]
fn checks_are_served_beside_the_mcp_endpoint() {
    assert_eq!(HEALTH_PATH, "/healthz");
    assert_eq!(READINESS_PATH, "/readyz");
    for mcp_path in ["/mcp", "/", "/healthz", "/readyz"] {
        assert_eq!(endpoint(mcp_path, "/healthz"), Endpoint::Probe);
        assert_eq!(endpoint(mcp_path, "/readyz"), Endpoint::Probe);
    }
}

#[test]
fn the_mcp_endpoint_is_at_its_path_alone() {
    assert_eq!(endpoint("/mcp", "/mcp"), Endpoint::Mcp);
    assert_eq!(endpoint("/", "/"), Endpoint::Mcp);
    for path in ["/", "/mcp/", "/mcp/x", "/MCP", "/healthz/", ""] {
        assert_eq!(endpoint("/mcp", path), Endpoint::NotFound);
    }
}
