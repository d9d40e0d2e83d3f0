use codex_mcp_server::SocketAddr;

fn v4(ip: u32, port: u16) -> Option<SocketAddr> {
    Some(SocketAddr::V4 { ip, port })
}

fn v6(ip: u128, port: u16, scope_id: u32) -> Option<SocketAddr> {
    Some(SocketAddr::V6 { ip, port, scope_id })
}

#[test]
fn ipv4_addresses_are_read() {
    assert_eq!(SocketAddr::from_text("127.0.0.1:8080"), v4(0x7f00_0001, 8080));
    assert_eq!(SocketAddr::from_text("0.0.0.0:0"), v4(0, 0));
    assert_eq!(SocketAddr::from_text("255.255.255.255:65535"), v4(0xffff_ffff, 65535));
    assert_eq!(SocketAddr::from_text("77.88.21.11:80"), v4(0x4d58_150b, 80));
}

#[test]
fn ports_may_have_leading_zeros() {
    assert_eq!(SocketAddr::from_text("1.2.3.4:0080"), v4(0x0102_0304, 80));
    assert_eq!(SocketAddr::from_text("1.2.3.4:000000065535"), v4(0x0102_0304, 65535));
}

#[test]
fn texts_that_are_no_ipv4_socket_address() {
    for text in [
        "",
        ":",
        "127.0.0.1",
        "127.0.0.1:",
        "127.0.0.1:65536",
        "127.0.0.1:99999999999999999999999",
        "127.0.0.1:+80",
        "127.0.0.1:-1",
        "127.0.0.1: 80",
        "127.0.0.1:80 ",
        " 127.0.0.1:80",
        "127.0.0.1:80:80",
        "127.0.0.1:0x50",
        "256.0.0.1:80",
        "01.2.3.4:80",
        "1.2.3.00:80",
        "1.2.3.0004:80",
        "1.2.3:80",
        "1.2.3.4.5:80",
        "1..3.4:80",
        ".1.2.3.4:80",
        "1.2.3.4.:80",
        "a.2.3.4:80",
        "localhost:80",
        "\u{661}.2.3.4:80",
    ] {
        assert_eq!(SocketAddr::from_text(text), None, "{text}");
        assert!(text.parse::<SocketAddr>().is_err(), "{text}");
    }
}

#[test]
fn ipv6_addresses_are_read() {
    assert_eq!(SocketAddr::from_text("[::]:0"), v6(0, 0, 0));
    assert_eq!(SocketAddr::from_text("[::1]:8080"), v6(1, 8080, 0));
    assert_eq!(
        SocketAddr::from_text("[2a02:6b8:0:1::1]:53"),
        v6(0x2a02_06b8_0000_0001_0000_0000_0000_0001, 53, 0)
    );
    assert_eq!(
        SocketAddr::from_text("[1:2:3:4:5:6:7:8]:9"),
        v6(0x0001_0002_0003_0004_0005_0006_0007_0008, 9, 0)
    );
    assert_eq!(
        SocketAddr::from_text("[1:2:3:4:5:6:7::]:9"),
        v6(0x0001_0002_0003_0004_0005_0006_0007_0000, 9, 0)
    );
    assert_eq!(
        SocketAddr::from_text("[::2:3:4:5:6:7:8]:9"),
        v6(0x0000_0002_0003_0004_0005_0006_0007_0008, 9, 0)
    );
    assert_eq!(
        SocketAddr::from_text("[FFFF:ffff:0000:00aB::]:9"),
        v6(0xffff_ffff_0000_00ab_0000_0000_0000_0000, 9, 0)
    );
}

#[test]
fn ipv4_may_end_an_ipv6_address() {
    assert_eq!(SocketAddr::from_text("[::127.0.0.1]:1"), v6(0x7f00_0001, 1, 0));
    assert_eq!(SocketAddr::from_text("[::ffff:1.2.3.4]:1"), v6(0xffff_0102_0304, 1, 0));
    assert_eq!(
        SocketAddr::from_text("[1:2:3:4:5:6:1.2.3.4]:1"),
        v6(0x0001_0002_0003_0004_0005_0006_0102_0304, 1, 0)
    );
    assert_eq!(
        SocketAddr::from_text("[1:2:3:4:5::1.2.3.4]:1"),
        v6(0x0001_0002_0003_0004_0005_0000_0102_0304, 1, 0)
    );
}

#[test]
fn scopes_are_decimal_numbers() {
    assert_eq!(SocketAddr::from_text("[fe80::1%0]:1"), v6(0xfe80 << 112 | 1, 1, 0));
    assert_eq!(SocketAddr::from_text("[fe80::1%0042]:1"), v6(0xfe80 << 112 | 1, 1, 42));
    assert_eq!(
        SocketAddr::from_text("[::%4294967295]:1"),
        v6(0, 1, 4294967295)
    );
    for text in ["[::1%]:1", "[::1%eth0]:1", "[::1%4294967296]:1", "[::1%1%1]:1", "[%1]:1"] {
        assert_eq!(SocketAddr::from_text(text), None, "{text}");
    }
}

#[test]
fn texts_that_are_no_ipv6_socket_address() {
    for text in [
        "[",
        "[]",
        "[]:80",
        "[::1]",
        "[::1]:",
        "[::1]80",
        "[::1]:65536",
        "[::1]:80]",
        "[[::1]]:80",
        "::1:80",
        "::1",
        "[:]:80",
        "[:::]:80",
        "[1:::2]:80",
        "[1::2::3]:80",
        "[:1:2:3:4:5:6:7]:80",
        "[1:2:3:4:5:6:7:]:80",
        "[1:2:3:4:5:6:7]:80",
        "[1:2:3:4:5:6:7:8:9]:80",
        "[1:2:3:4:5:6:7:8::]:80",
        "[1:2:3:4:5:6:7::8]:80",
        "[12345::]:80",
        "[g::]:80",
        "[1.2.3.4]:80",
        "[1.2.3.4::]:80",
        "[::1.2.3.4:5]:80",
        "[::1.2.3]:80",
        "[::01.2.3.4]:80",
        "[::1.2.3.256]:80",
        "[1:2:3:4:5:6:7:1.2.3.4]:80",
        "[1:2:3:4:5:6::1.2.3.4]:80",
    ] {
        assert_eq!(SocketAddr::from_text(text), None, "{text}");
    }
}

#[test]
fn written_addresses_read_back() {
    for (a, b, c, d, port) in [
        (0u8, 0u8, 0u8, 0u8, 0u16),
        (10, 100, 255, 9, 65535),
        (192, 168, 1, 20, 443),
    ] {
        let ip = u32::from_be_bytes([a, b, c, d]);
        assert_eq!(SocketAddr::from_text(&format!("{a}.{b}.{c}.{d}:{port}")), v4(ip, port));
    }
    let ip: u128 = 0x2001_0db8_0000_0042_0000_8a2e_0370_7334;
    let groups: Vec<String> =
        (0..8).map(|i| format!("{:x}", (ip >> (112 - 16 * i)) as u16)).collect();
    assert_eq!(SocketAddr::from_text(&format!("[{}]:8080", groups.join(":"))), v6(ip, 8080, 0));
    assert_eq!(SocketAddr::from_text(&format!("[{}%7]:8080", groups.join(":"))), v6(ip, 8080, 7));
}

#[test]
fn a_run_of_zero_groups_may_be_left_out() {
    let ip: u128 = 0x2001_0db8_0000_0000_0000_0000_0000_0001;
    for text in [
        "[2001:db8::1]:80",
        "[2001:db8:0::1]:80",
        "[2001:db8::0:0:1]:80",
        "[2001:db8:0:0:0:0::1]:80",
        "[2001:db8:0:0:0:0:0:1]:80",
    ] {
        assert_eq!(SocketAddr::from_text(text), v6(ip, 80, 0));
    }
    assert_eq!(SocketAddr::from_text("[::%3]:1"), v6(0, 1, 3));
    assert_eq!(SocketAddr::from_text("[1::]:1"), v6(1 << 112, 1, 0));
}

#[test]
fn mapped_ipv4_addresses_read_back() {
    assert_eq!(SocketAddr::from_text("[::ffff:192.0.2.33]:80"), v6(0xffff_c000_0221, 80, 0));
    assert_eq!(SocketAddr::from_text("[::ffff:255.255.255.255%9]:80"), v6((1 << 48) - 1, 80, 9));
}
