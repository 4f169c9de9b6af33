use tcp_speeder::endpoint::{parse_endpoint, parse_port, EndpointError};

#[test]
fn port_parse_matches_std() {
    let cases = [
        "0", "443", "+443", "65535", "65536", "0080", "", "+", "-1", "++1", "12a", " 1", "1 ", "99999999999", "٣",
    ];
    for case in cases {
        assert_eq!(parse_port(case), case.parse::<u16>().ok(), "{:?}", case);
    }
}

#[test]
fn endpoint_with_domain_and_port() {
    let ep = parse_endpoint("api.kraken.com:443").unwrap();
    assert_eq!(ep.domain, "api.kraken.com");
    assert_eq!(ep.port, 443);
}

#[test]
fn endpoint_with_empty_domain() {
    let ep = parse_endpoint(":8080").unwrap();
    assert_eq!(ep.domain, "");
    assert_eq!(ep.port, 8080);
}

#[test]
fn endpoint_without_colon_is_refused() {
    assert_eq!(parse_endpoint("api.kraken.com").err(), Some(EndpointError::Format));
}

#[test]
fn endpoint_with_two_colons_is_refused() {
    assert_eq!(parse_endpoint("::1:443").err(), Some(EndpointError::Format));
    assert_eq!(parse_endpoint("a:1:2").err(), Some(EndpointError::Format));
}

#[test]
fn endpoint_with_bad_port_is_refused() {
    assert_eq!(parse_endpoint("host:https").err(), Some(EndpointError::Port));
    assert_eq!(parse_endpoint("host:").err(), Some(EndpointError::Port));
    assert_eq!(parse_endpoint("host:70000").err(), Some(EndpointError::Port));
}

#[test]
fn endpoint_round_trip() {
    for (domain, port) in [("fapi.binance.com", 443u16), ("x", 0), ("ws.okx.com", 65535)] {
        let text = format!("{}:{}", domain, port);
        let ep = parse_endpoint(&text).unwrap();
        assert_eq!((ep.domain.as_str(), ep.port), (domain, port));
    }
}
