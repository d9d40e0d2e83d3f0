use codex_mcp_server::{
    McpListenTransport, McpListenTransportParseError, McpServerArgs, McpServerArgsError, OsArg,
};

fn os_args(args: &[&str]) -> Vec<OsArg> {
    args.iter().map(|arg| OsArg::Text(arg.to_string())).collect()
}

fn mcp_server_args_from(args: &[&str]) -> McpServerArgs {
    McpServerArgs::parse_from(&os_args(args)).expect("parse")
}

fn refusal(args: &[&str]) -> McpServerArgsError {
    McpServerArgs::parse_from(&os_args(args)).expect_err("refused")
}

#[test]
fn main_args_default_listen_transport_is_stdio() {
    let args = mcp_server_args_from(["codex-mcp-server"].as_ref());

    assert_eq!(args.listen, McpListenTransport::Stdio);
}

#[test]
fn main_args_parse_explicit_listen_transport() {
    let args = mcp_server_args_from(
        [
            "codex-mcp-server",
            "--listen",
            "http://127.0.0.1:8080/custom",
        ]
        .as_ref(),
    );

    assert_eq!(
        args.listen,
        McpListenTransport::Http {
            bind_address: "127.0.0.1:8080".parse().expect("socket address"),
            path: "/custom".to_string(),
        }
    );
}

#[test]
fn main_args_parse_explicit_listen_with_equals() {
    let args = mcp_server_args_from(
        ["codex-mcp-server", "--listen=http://127.0.0.1:8080/custom"].as_ref(),
    );

    assert_eq!(
        args.listen,
        McpListenTransport::Http {
            bind_address: "127.0.0.1:8080".parse().expect("socket address"),
            path: "/custom".to_string(),
        }
    );
}

#[test]
fn main_args_parse_config_overrides() {
    let args = mcp_server_args_from(["codex-mcp-server", "-c", "model=\"gpt-5\""].as_ref());

    assert_eq!(
        args.config_overrides.raw_overrides,
        vec!["model=\"gpt-5\"".to_string()]
    );
}

#[test]
fn an_empty_command_line_is_accepted() {
    let args = mcp_server_args_from(&[]);
    assert_eq!(args.listen, McpListenTransport::Stdio);
    assert!(args.config_overrides.raw_overrides.is_empty());
}

#[test]
fn the_last_listen_option_is_in_force() {
    let args = mcp_server_args_from(&[
        "p", "--listen", "not a URL", "-c", "a=1", "--listen=stdio://", "--config", "b=2",
    ]);
    assert_eq!(args.listen, McpListenTransport::Stdio);
    assert_eq!(args.config_overrides.raw_overrides, vec!["a=1".to_string(), "b=2".to_string()]);
}

#[test]
fn both_spellings_of_an_option_agree() {
    assert_eq!(
        mcp_server_args_from(&["p", "-c", "a=1", "--listen", "http://[::1]:1/x"]),
        mcp_server_args_from(&["p", "--config", "a=1", "--listen=http://[::1]:1/x"])
    );
}

#[test]
fn an_option_may_be_the_value_of_another() {
    let args = mcp_server_args_from(&["p", "-c", "--listen", "-c", "-c"]);
    assert_eq!(
        args.config_overrides.raw_overrides,
        vec!["--listen".to_string(), "-c".to_string()]
    );
    assert_eq!(args.listen, McpListenTransport::Stdio);
}

#[test]
fn missing_values_are_refused() {
    let error = refusal(&["p", "--listen"]);
    assert_eq!(error, McpServerArgsError::MissingListenValue);
    assert_eq!(error.to_string(), "missing value for `--listen`");
    for flag in ["-c", "--config"] {
        let error = refusal(&["p", "-c", "a=1", flag]);
        assert_eq!(error, McpServerArgsError::MissingConfigValue);
        assert_eq!(error.to_string(), "missing value for `-c` / `--config`");
    }
}

#[test]
fn other_arguments_are_refused() {
    for arg in ["", "--help", "--listenx", "-cx", "--config=a", "stdio://"] {
        let error = refusal(&["p", arg, "--listen"]);
        assert_eq!(error, McpServerArgsError::UnexpectedArgument(arg.to_string()));
        assert_eq!(error.to_string(), format!("unexpected argument `{arg}`"));
    }
}

#[test]
fn a_refused_listen_url_is_reported_last() {
    let error = refusal(&["p", "--listen=", "-c", "a=1"]);
    assert_eq!(
        error,
        McpServerArgsError::Listen(McpListenTransportParseError::UnsupportedListenUrl(String::new()))
    );
    assert_eq!(
        error.to_string(),
        "unsupported --listen URL ``; expected `stdio://` or `http://IP:PORT[/PATH]`"
    );
    assert_eq!(
        refusal(&["p", "--listen=", "x"]),
        McpServerArgsError::UnexpectedArgument("x".to_string())
    );
}

#[test]
fn undecodable_arguments_are_refused_but_for_the_program_name() {
    let broken = || OsArg::NotUtf8 { lossy: "a\u{fffd}".to_string() };
    let text = |s: &str| OsArg::Text(s.to_string());
    assert_eq!(
        McpServerArgs::parse_from(&vec![broken()]).map(|args| args.listen),
        Ok(McpListenTransport::Stdio)
    );
    for args in [
        vec![text("p"), broken()],
        vec![text("p"), text("--listen"), broken()],
        vec![text("p"), text("-c"), broken(), text("x")],
    ] {
        let error = McpServerArgs::parse_from(&args).expect_err("refused");
        assert_eq!(error, McpServerArgsError::NotUtf8 { lossy: "a\u{fffd}".to_string() });
        assert_eq!(error.to_string(), "argument `a\u{fffd}` is not valid UTF-8");
    }
}
