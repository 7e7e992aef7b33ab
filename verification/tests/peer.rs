use hydra::peer::{build_peer, parse_endpoint};
use hydra::rewrite::rewrite_path;

#[test]
fn peer_build_https_sni() {
    let ep = parse_endpoint("https://127.0.0.1").unwrap();
    assert_eq!(ep.scheme, "https");
    assert_eq!(ep.host, "127.0.0.1");
    assert_eq!(ep.port, 443);
    let peer = build_peer(&ep);
    assert!(peer.is_tls());
    assert_eq!(peer.sni, "127.0.0.1");
}

#[test]
fn peer_build_http() {
    let ep = parse_endpoint("http://127.0.0.1:8080").unwrap();
    assert_eq!(ep.scheme, "http");
    assert_eq!(ep.port, 8080);
    let peer = build_peer(&ep);
    assert!(!peer.is_tls());
    assert_eq!(peer.sni, "127.0.0.1");
}

#[test]
fn peer_build_custom_port() {
    let ep = parse_endpoint("https://127.0.0.1:8443").unwrap();
    assert_eq!(ep.port, 8443);
    let peer = build_peer(&ep);
    assert!(peer.is_tls());
    assert_eq!(peer.sni, "127.0.0.1");
}

#[test]
fn peer_build_with_path_prefix() {
    let ep = parse_endpoint("https://gw.provider.com/llm/").unwrap();
    assert_eq!(ep.host, "gw.provider.com");
    assert_eq!(ep.path_prefix, "/llm");
}

#[test]
fn parse_rejects_garbage() {
    assert!(parse_endpoint("ftp://x").is_none());
    assert!(parse_endpoint("https://").is_none());
    assert!(parse_endpoint("not a url").is_none());
}

#[test]
fn parse_http_default_port_80() {
    let ep = parse_endpoint("http://upstream.local").unwrap();
    assert_eq!(ep.port, 80);
}

#[test]
fn peer_address_is_host_and_port() {
    let peer = build_peer(&parse_endpoint("https://api.x.com/p").unwrap());
    assert_eq!(peer.address, "api.x.com:443");
}

#[test]
fn port_numbers() {
    assert_eq!(parse_endpoint("http://a:0").unwrap().port, 0);
    assert_eq!(parse_endpoint("http://a:65535").unwrap().port, 65535);
    assert_eq!(parse_endpoint("http://a:+8080").unwrap().port, 8080);
    assert_eq!(parse_endpoint("http://a:00080").unwrap().port, 80);
    assert!(parse_endpoint("http://a:65536").is_none());
    assert!(parse_endpoint("http://a:").is_none());
    assert!(parse_endpoint("http://a:+").is_none());
    assert!(parse_endpoint("http://a:-1").is_none());
    assert!(parse_endpoint("http://a:8x").is_none());
    assert!(parse_endpoint("http://a:99999999999999999999").is_none());
}

#[test]
fn authority_is_split_at_the_last_colon() {
    let ep = parse_endpoint("https://[::1]:9000/x").unwrap();
    assert_eq!(ep.host, "[::1]");
    assert_eq!(ep.port, 9000);
}

#[test]
fn empty_host_is_no_endpoint() {
    assert!(parse_endpoint("https://:8080").is_none());
    assert!(parse_endpoint("http://:8080/v1").is_none());
    assert!(parse_endpoint("https://").is_none());
    assert!(parse_endpoint("https://:").is_none());
}

#[test]
fn query_and_fragment_are_dropped() {
    let ep = parse_endpoint("https://a.io/p/q//?x=1#y").unwrap();
    assert_eq!(ep.host, "a.io");
    assert_eq!(ep.path_prefix, "/p/q");
    let bare = parse_endpoint("https://a.io?x=/1").unwrap();
    assert_eq!(bare.host, "a.io");
    assert_eq!(bare.path_prefix, "");
    assert!(parse_endpoint("https:///p").is_none());
    assert!(parse_endpoint("https://#p").is_none());
}

#[test]
fn base_url_is_read_back() {
    for url in ["https://a.io", "http://a.io:8080/llm", "https://a.io:80/x/y", "http://h"] {
        let ep = parse_endpoint(url).unwrap();
        assert_eq!(rewrite_path("", &ep), url);
        assert_eq!(parse_endpoint(&rewrite_path("", &ep)), Some(ep));
    }
}
