use hydra::extract::extract_model;

#[test]
fn extract_model_standard() {
    let body = br#"{"model":"gpt-4o","messages":[]}"#;
    assert_eq!(extract_model(body), Some(&b"gpt-4o"[..]));
}

#[test]
fn extract_model_whitespace_tolerant() {
    let body = br#"{ "model" : "gpt-4o" }"#;
    assert_eq!(extract_model(body), Some(&b"gpt-4o"[..]));
}

#[test]
fn extract_model_not_first_field() {
    let body = br#"{"a":1,"model":"x","b":2}"#;
    assert_eq!(extract_model(body), Some(&b"x"[..]));
}

#[test]
fn extract_model_missing_returns_none() {
    let body = br#"{"messages":[{"role":"user"}]}"#;
    assert_eq!(extract_model(body), None);
}

#[test]
fn extract_model_no_allocation() {
    let body = br#"{"model":"gpt-4o"}"#;
    let model = extract_model(body).expect("model present");

    let body_start = body.as_ptr() as usize;
    let body_end = body_start + body.len();
    let model_start = model.as_ptr() as usize;
    let model_end = model_start + model.len();

    assert!(
        model_start >= body_start && model_end <= body_end,
        "returned slice must lie within the input buffer"
    );
    assert_eq!(model, b"gpt-4o");
}

#[test]
fn extract_model_top_level_preferred_when_first() {
    let body = br#"{"model":"real","messages":[{"model":"x"}]}"#;
    assert_eq!(extract_model(body), Some(&b"real"[..]));
}

#[test]
fn extract_model_nested_first_match_documented() {
    let body = br#"{"messages":[{"model":"x"}],"model":"real"}"#;
    assert_eq!(extract_model(body), Some(&b"x"[..]));
}

#[test]
fn extract_model_short_input_no_panic() {
    assert_eq!(extract_model(b""), None);
    assert_eq!(extract_model(b"{"), None);
    assert_eq!(extract_model(b"\"model\""), None);
    assert_eq!(extract_model(b"\"model\":"), None);
    assert_eq!(extract_model(b"\"model\" :"), None);
    assert_eq!(extract_model(b"\"model\": 1"), None);
    assert_eq!(extract_model(b"\"model\":\""), None);
}

#[test]
fn extract_model_first_chunk_only() {
    let first_chunk = br#"{"model":"command-r-plus""#;
    assert_eq!(extract_model(first_chunk), Some(&b"command-r-plus"[..]));

    let chunk = b"data: blah\n{\"model\":\"qwen\",";
    assert_eq!(extract_model(chunk), Some(&b"qwen"[..]));
}

#[test]
fn bytes_after_the_value_change_nothing() {
    let first = br#"{"model":"gpt-4""#;
    let mut whole = first.to_vec();
    whole.extend_from_slice(br#","x":"model","model":"other"}"#);
    assert_eq!(extract_model(&whole), extract_model(first));
    assert_eq!(extract_model(&whole), Some(&b"gpt-4"[..]));
}

#[test]
fn value_ends_at_the_first_quote() {
    assert_eq!(extract_model(br#"{"model":"a\"b"}"#), Some(&b"a\\"[..]));
    assert_eq!(extract_model(br#"{"model":""}"#), Some(&b""[..]));
    assert_eq!(extract_model(b"{\"model\"\x0c:\t\"m\"}"), Some(&b"m"[..]));
}
