use codex_mcp_server::{McpListenTransport, McpListenTransportParseError, SocketAddr};

#[test]
fn mcp_listen_transport_parses_stdio_listen_url() {
    let transport = McpListenTransport::from_listen_url(McpListenTransport::DEFAULT_LISTEN_URL)
        .expect("stdio listen URL should parse");
    assert_eq!(transport, McpListenTransport::Stdio);
}

#[test]
fn mcp_listen_transport_parses_http_listen_url_with_default_path() {
    let transport = McpListenTransport::from_listen_url("http://127.0.0.1:8080")
        .expect("http listen URL should parse");
    assert_eq!(
        transport,
        McpListenTransport::Http {
            bind_address: "127.0.0.1:8080".parse().expect("valid socket address"),
            path: "/mcp".to_string(),
        }
    );
}

#[test]
fn mcp_listen_transport_parses_http_listen_url_with_custom_path() {
    let transport = McpListenTransport::from_listen_url("http://127.0.0.1:8080/custom")
        .expect("http listen URL with path should parse");
    assert_eq!(
        transport,
        McpListenTransport::Http {
            bind_address: "127.0.0.1:8080".parse().expect("valid socket address"),
            path: "/custom".to_string(),
        }
    );
}

#[test]
fn mcp_listen_transport_parses_ipv6_http_listen_url() {
    let transport = McpListenTransport::from_listen_url("http://[::1]:8080/mcp")
        .expect("ipv6 http listen URL should parse");
    assert_eq!(
        transport,
        McpListenTransport::Http {
            bind_address: "[::1]:8080".parse().expect("valid socket address"),
            path: "/mcp".to_string(),
        }
    );
}

#[test]
fn mcp_listen_transport_rejects_invalid_stdio_listen_url() {
    let err = McpListenTransport::from_listen_url("stdio://extra")
        .expect_err("stdio listen URL with extra components should fail");
    assert_eq!(
        err.to_string(),
        "invalid stdio --listen URL `stdio://extra`; expected exactly `stdio://`"
    );
}

#[test]
fn mcp_listen_transport_rejects_http_listen_url_without_ip_literal_host() {
    let err = McpListenTransport::from_listen_url("http://localhost:8080")
        .expect_err("hostname bind address should be rejected");
    assert_eq!(
        err.to_string(),
        "invalid HTTP --listen URL `http://localhost:8080`: host must be an IP literal with an explicit port; expected `http://IP:PORT[/PATH]`"
    );
}

#[test]
fn mcp_listen_transport_rejects_http_listen_url_with_query() {
    let err = McpListenTransport::from_listen_url("http://127.0.0.1:8080/mcp?foo=bar")
        .expect_err("query parameters should be rejected");
    assert_eq!(
        err.to_string(),
        "invalid HTTP --listen URL `http://127.0.0.1:8080/mcp?foo=bar`: query strings and fragments are not supported; expected `http://IP:PORT[/PATH]`"
    );
}

#[test]
fn mcp_listen_transport_rejects_http_listen_url_without_port() {
    let err = McpListenTransport::from_listen_url("http://127.0.0.1")
        .expect_err("missing port should be rejected");
    assert_eq!(
        err.to_string(),
        "invalid HTTP --listen URL `http://127.0.0.1`: host must be an IP literal with an explicit port; expected `http://IP:PORT[/PATH]`"
    );
}

#[test]
fn mcp_listen_transport_rejects_unsupported_listen_url() {
    let err = McpListenTransport::from_listen_url("https://127.0.0.1:8080")
        .expect_err("unsupported scheme should fail");
    assert_eq!(
        err.to_string(),
        "unsupported --listen URL `https://127.0.0.1:8080`; expected `stdio://` or `http://IP:PORT[/PATH]`"
    );
}

#[test]
fn from_str_reads_a_listen_url() {
    assert_eq!("stdio://".parse::<McpListenTransport>(), Ok(McpListenTransport::Stdio));
    assert_eq!(
        "http://0.0.0.0:1/".parse::<McpListenTransport>(),
        Ok(McpListenTransport::Http {
            bind_address: SocketAddr::V4 { ip: 0, port: 1 },
            path: "/".to_string(),
        })
    );
}

#[test]
fn the_path_keeps_everything_from_the_first_slash_on() {
    assert_eq!(
        McpListenTransport::from_listen_url("http://1.2.3.4:5/a//b/\u{e9}/"),
        Ok(McpListenTransport::Http {
            bind_address: SocketAddr::V4 { ip: 0x0102_0304, port: 5 },
            path: "/a//b/\u{e9}/".to_string(),
        })
    );
}

#[test]
fn schemes_are_case_sensitive() {
    for url in ["", "stdio:/", "Stdio://", "HTTP://127.0.0.1:8080", "http:/127.0.0.1:8080"] {
        assert_eq!(
            McpListenTransport::from_listen_url(url),
            Err(McpListenTransportParseError::UnsupportedListenUrl(url.to_string()))
        );
    }
}

#[test]
fn queries_and_fragments_are_refused_before_the_host() {
    for url in ["http://?", "http://localhost#x", "http://127.0.0.1:8080/mcp#top"] {
        assert_eq!(
            McpListenTransport::from_listen_url(url),
            Err(McpListenTransportParseError::InvalidHttpListenUrl {
                listen_url: url.to_string(),
                reason: "query strings and fragments are not supported",
            })
        );
    }
}

#[test]
fn an_empty_authority_is_refused() {
    for url in ["http://", "http:///mcp"] {
        assert_eq!(
            McpListenTransport::from_listen_url(url),
            Err(McpListenTransportParseError::InvalidHttpListenUrl {
                listen_url: url.to_string(),
                reason: "host must be an IP literal with an explicit port",
            })
        );
    }
}
