use vpn_rust::config::{parse_port, split_tokens, OVPNConfig};

#[test]
fn typical_config() {
    let text = b"client\ndev tun\nremote vpn.example.org 443\ncipher AES-256-GCM\n";
    let c = OVPNConfig::from_content(text);
    assert_eq!(c.remote_addr, b"vpn.example.org".to_vec());
    assert_eq!(c.remote_port, 443);
}

#[test]
fn last_remote_directive_wins() {
    let text = b"remote first.example 1111\nremote second.example 2222\n";
    let c = OVPNConfig::from_content(text);
    assert_eq!(c.remote_addr, b"second.example".to_vec());
    assert_eq!(c.remote_port, 2222);
}

#[test]
fn no_remote_directive_gives_defaults() {
    let c = OVPNConfig::from_content(b"client\ndev tun\n");
    assert_eq!(c.remote_addr, Vec::<u8>::new());
    assert_eq!(c.remote_port, 1194);
}

#[test]
fn short_remote_line_is_ignored() {
    // only two words: no port, so the directive is unusable
    let text = b"remote lonely.example\nremote good.example 80\nremote also-short\n";
    let c = OVPNConfig::from_content(text);
    assert_eq!(c.remote_addr, b"good.example".to_vec());
    assert_eq!(c.remote_port, 80);
}

#[test]
fn unparsable_port_falls_back() {
    let c = OVPNConfig::from_content(b"remote host.example abc\n");
    assert_eq!(c.remote_addr, b"host.example".to_vec());
    assert_eq!(c.remote_port, 1194);
}

#[test]
fn overflowing_port_falls_back() {
    let c = OVPNConfig::from_content(b"remote host.example 70000\n");
    assert_eq!(c.remote_port, 1194);
}

#[test]
fn crlf_line_endings() {
    let text = b"client\r\nremote host.example 4433\r\n";
    let c = OVPNConfig::from_content(text);
    assert_eq!(c.remote_addr, b"host.example".to_vec());
    assert_eq!(c.remote_port, 4433);
}

#[test]
fn missing_trailing_newline() {
    let c = OVPNConfig::from_content(b"remote host.example 1200");
    assert_eq!(c.remote_addr, b"host.example".to_vec());
    assert_eq!(c.remote_port, 1200);
}

#[test]
fn remote_needs_its_own_keyword() {
    // `remoteX` and an indented keyword do not start a directive
    let c = OVPNConfig::from_content(b"remoteX a 1\n remote b 2\n");
    assert_eq!(c.remote_addr, Vec::<u8>::new());
    assert_eq!(c.remote_port, 1194);
}

#[test]
fn port_parse_plain_and_signed() {
    assert_eq!(parse_port(b"80"), 80);
    assert_eq!(parse_port(b"+80"), 80);
    assert_eq!(parse_port(b"65535"), 65535);
    assert_eq!(parse_port(b"65536"), 1194);
    assert_eq!(parse_port(b""), 1194);
    assert_eq!(parse_port(b"+"), 1194);
    assert_eq!(parse_port(b"8 0"), 1194);
    assert_eq!(parse_port(b"007"), 7);
    assert_eq!(parse_port(b"99999999999999999999"), 1194);
}

#[test]
fn tokens_split_on_blanks_and_tabs() {
    let ts = split_tokens(b"  remote\thost.example   443 ");
    assert_eq!(
        ts,
        vec![b"remote".to_vec(), b"host.example".to_vec(), b"443".to_vec()]
    );
}
