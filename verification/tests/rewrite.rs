use hydra::rewrite::{mask_key, rewrite_path, EndpointUrl};

fn endpoint(scheme: &str, host: &str, port: u16, path_prefix: &str) -> EndpointUrl {
    EndpointUrl {
        scheme: scheme.into(),
        host: host.into(),
        port,
        path_prefix: path_prefix.into(),
    }
}

#[test]
fn rewrite_first_v1_split() {
    let ep = endpoint("https", "api.x.com", 443, "");
    let out = rewrite_path("/foo/v1/chat", &ep);
    assert_eq!(out, "https://api.x.com/v1/chat");
    assert!(out.ends_with("/v1/chat"));
    assert!(!out.contains("/foo"));
}

#[test]
fn rewrite_endpoint_with_prefix() {
    let ep = endpoint("https", "gw.x.com", 443, "/llm");
    let out = rewrite_path("/foo/v1/chat", &ep);
    assert_eq!(out, "https://gw.x.com/llm/v1/chat");
}

#[test]
fn rewrite_no_v1_passthrough() {
    let ep = endpoint("https", "api.x.com", 443, "");
    assert_eq!(rewrite_path("/foo/bar", &ep), "https://api.x.com/foo/bar");
    let ep2 = endpoint("https", "gw.x.com", 443, "/llm");
    assert_eq!(
        rewrite_path("/foo/bar", &ep2),
        "https://gw.x.com/llm/foo/bar"
    );
}

#[test]
fn rewrite_multiple_v1_uses_first() {
    let ep = endpoint("https", "x.com", 443, "");
    assert_eq!(rewrite_path("/v1/a/v1/b", &ep), "https://x.com/v1/a/v1/b");
    let ep2 = endpoint("https", "x.com", 443, "");
    assert_eq!(
        rewrite_path("/pre/v1/mid/v1/end", &ep2),
        "https://x.com/v1/mid/v1/end"
    );
}

#[test]
fn rewrite_v1_at_tail() {
    let ep = endpoint("https", "api.x.com", 443, "");
    assert_eq!(rewrite_path("/foo/v1", &ep), "https://api.x.com/v1");
}

#[test]
fn rewrite_port_rendering() {
    assert_eq!(
        rewrite_path("/v1/c", &endpoint("https", "a.io", 443, "")),
        "https://a.io/v1/c"
    );
    assert_eq!(
        rewrite_path("/v1/c", &endpoint("http", "a.io", 80, "")),
        "http://a.io/v1/c"
    );
    assert_eq!(
        rewrite_path("/v1/c", &endpoint("https", "a.io", 8443, "")),
        "https://a.io:8443/v1/c"
    );
    assert_eq!(
        rewrite_path("/v1/c", &endpoint("http", "a.io", 8080, "")),
        "http://a.io:8080/v1/c"
    );
}

#[test]
fn mask_key_short_input() {
    assert_eq!(mask_key(""), "****");
    assert_eq!(mask_key("abc"), "****");
    assert_eq!(mask_key("12345678"), "****");
    let secret = "sh0rt";
    let masked = mask_key(secret);
    assert_ne!(masked, secret);
    assert!(!masked.contains(secret));
}

#[test]
fn mask_key_normal() {
    assert_eq!(mask_key("123456789"), "1234…6789");
    assert_eq!(mask_key("sk-secretvalue-wxyz"), "sk-s…wxyz");
    let key = "sk-abcdefghijkl";
    let masked = mask_key(key);
    assert_eq!(masked, "sk-a…ijkl");
    assert!(masked.starts_with("sk-a"));
    assert!(masked.ends_with("ijkl"));
    assert!(masked.contains('…'));
}

#[test]
fn rewriting_twice_keeps_the_tail() {
    let ep = endpoint("https", "a.io", 443, "");
    let once = rewrite_path("/x/v1/y", &ep);
    assert_eq!(rewrite_path(&once, &ep), once);
    assert_eq!(rewrite_path("é/v1", &ep), "https://a.io/v1");
    assert_eq!(rewrite_path("", &endpoint("ftp", "h", 80, "")), "ftp://h:80");
}

#[test]
fn mask_shows_ends_only() {
    assert_eq!(mask_key("abcdXXXXwxyz"), mask_key("abcdYwxyz"));
    assert_eq!(mask_key("a"), mask_key("12345678"));
    assert_eq!(mask_key("äöüßabcdéèêë"), "äöüß…éèêë");
}
