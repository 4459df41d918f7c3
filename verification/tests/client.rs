use pai_sho::client::parse_exposed_port;
use pai_sho::protocol::ExposedPort;

fn port(remote: u16, local: u16) -> Result<ExposedPort, String> {
    Ok(ExposedPort { remote, local })
}

#[test]
fn single_port_maps_to_itself() {
    assert_eq!(parse_exposed_port("8080"), port(8080, 8080));
    assert_eq!(parse_exposed_port("0"), port(0, 0));
    assert_eq!(parse_exposed_port("65535"), port(65535, 65535));
}

#[test]
fn remote_and_local_split_at_colon() {
    assert_eq!(parse_exposed_port("8080:80"), port(8080, 80));
    assert_eq!(parse_exposed_port("+22:+2222"), port(22, 2222));
    assert_eq!(parse_exposed_port("007:08"), port(7, 8));
}

#[test]
fn invalid_port() {
    assert_eq!(parse_exposed_port(""), Err("invalid port".to_string()));
    assert_eq!(parse_exposed_port("65536"), Err("invalid port".to_string()));
    assert_eq!(parse_exposed_port("-1"), Err("invalid port".to_string()));
    assert_eq!(parse_exposed_port("+"), Err("invalid port".to_string()));
    assert_eq!(parse_exposed_port("80a"), Err("invalid port".to_string()));
    assert_eq!(parse_exposed_port("999999999999"), Err("invalid port".to_string()));
}

#[test]
fn invalid_remote_port() {
    assert_eq!(parse_exposed_port(":80"), Err("invalid remote port".to_string()));
    assert_eq!(parse_exposed_port("x:80"), Err("invalid remote port".to_string()));
    assert_eq!(parse_exposed_port("70000:80"), Err("invalid remote port".to_string()));
}

#[test]
fn invalid_local_port() {
    assert_eq!(parse_exposed_port("80:"), Err("invalid local port".to_string()));
    assert_eq!(parse_exposed_port("80:x"), Err("invalid local port".to_string()));
    assert_eq!(parse_exposed_port("1:2:3"), Err("invalid local port".to_string()));
}

#[test]
fn matches_std_parse() {
    for s in ["0", "1", "+1", "++1", " 1", "1 ", "00065535", "65535", "65536", "", "+", "ä", "٣"] {
        let expected = s.parse::<u16>().ok();
        let got = parse_exposed_port(s).ok().map(|p| p.remote);
        assert_eq!(got, expected, "input {:?}", s);
    }
}

#[test]
fn port_text_round_trips() {
    for r in [0u16, 1, 9, 10, 80, 443, 4000, 9999, 10000, 65535] {
        for l in [0u16, 7, 22, 8080, 65534, 65535] {
            let p = parse_exposed_port(&format!("{}:{}", r, l)).unwrap();
            assert_eq!((p.remote, p.local), (r, l));
        }
        let p = parse_exposed_port(&r.to_string()).unwrap();
        assert_eq!((p.remote, p.local), (r, r));
    }
}
