use hydra::model::{ProviderKind, Usage};
use hydra::sse::{read_anthropic, read_openai, ScanResult, UsageScanner};

#[test]
fn usage_scan_no_usage_skips_zero_alloc() {
    let mut scanner = UsageScanner::new(ProviderKind::OpenAi);
    let chunk = b"data: {\"choices\":[{\"delta\":{\"content\":\"hi\"}}]}\n";
    assert_eq!(scanner.scan_chunk(chunk), ScanResult::Skip);
    assert_eq!(scanner.finalize(), None);
}

#[test]
fn usage_scan_finds_usage_memchr() {
    let mut scanner = UsageScanner::new(ProviderKind::OpenAi);
    let chunk = b"data: {\"choices\":[],\"usage\":{\"prompt_tokens\":3,\"completion_tokens\":4,\"total_tokens\":7}}\n";
    assert_eq!(scanner.scan_chunk(chunk), ScanResult::Found);
    assert_eq!(
        scanner.finalize(),
        Some(Usage {
            prompt_tokens: Some(3),
            completion_tokens: Some(4),
            total_tokens: Some(7),
            ..Default::default()
        })
    );
}

#[test]
fn usage_openai_final_chunk() {
    let mut scanner = UsageScanner::new(ProviderKind::OpenAi);
    scanner.scan_chunk(b"data: {\"choices\":[{\"delta\":{\"content\":\"hello\"}}]}\n");
    let final_chunk = b"data: {\"choices\":[],\"usage\":{\"prompt_tokens\":100,\"completion_tokens\":50,\"total_tokens\":150}}\n";
    assert_eq!(scanner.scan_chunk(final_chunk), ScanResult::Found);
    assert_eq!(
        scanner.finalize(),
        Some(Usage {
            prompt_tokens: Some(100),
            completion_tokens: Some(50),
            total_tokens: Some(150),
            ..Default::default()
        })
    );
}

#[test]
fn usage_anthropic_message_delta() {
    let mut scanner = UsageScanner::new(ProviderKind::Anthropic);
    let chunk = b"event: message_delta\ndata: {\"type\":\"message_delta\",\"usage\":{\"input_tokens\":12,\"output_tokens\":8}}\n\n";
    assert_eq!(scanner.scan_chunk(chunk), ScanResult::Found);
    assert_eq!(
        scanner.finalize(),
        Some(Usage {
            prompt_tokens: Some(12),
            completion_tokens: Some(8),
            total_tokens: Some(20),
            ..Default::default()
        })
    );
}

#[test]
fn usage_anthropic_cumulative_last_wins() {
    let mut scanner = UsageScanner::new(ProviderKind::Anthropic);
    scanner.scan_chunk(
        b"event: message_start\ndata: {\"type\":\"message_start\",\"usage\":{\"input_tokens\":40,\"output_tokens\":1}}\n\n",
    );
    scanner.scan_chunk(
        b"event: message_delta\ndata: {\"type\":\"message_delta\",\"usage\":{\"output_tokens\":5}}\n\n",
    );
    scanner.scan_chunk(
        b"event: message_delta\ndata: {\"type\":\"message_delta\",\"usage\":{\"output_tokens\":12}}\n\n",
    );

    assert_eq!(
        scanner.finalize(),
        Some(Usage {
            prompt_tokens: Some(40),
            completion_tokens: Some(12),
            total_tokens: Some(52),
            ..Default::default()
        })
    );
}

#[test]
fn usage_done_marker() {
    let mut scanner = UsageScanner::new(ProviderKind::OpenAi);
    let usage = b"data: {\"choices\":[],\"usage\":{\"prompt_tokens\":1,\"completion_tokens\":1,\"total_tokens\":2}}\n";
    scanner.scan_chunk(usage);
    assert_eq!(scanner.scan_chunk(b"data: [DONE]\n"), ScanResult::Done);
    assert_eq!(
        scanner.finalize(),
        Some(Usage {
            prompt_tokens: Some(1),
            completion_tokens: Some(1),
            total_tokens: Some(2),
            ..Default::default()
        })
    );
}

#[test]
fn usage_cross_chunk_boundary() {
    let mut scanner = UsageScanner::new(ProviderKind::OpenAi);
    scanner.scan_chunk(b"data: {\"choices\":[]}\ndata: {\"usa");
    let result = scanner
        .scan_chunk(b"ge\":{\"prompt_tokens\":9,\"completion_tokens\":1,\"total_tokens\":10}}\n");
    assert_eq!(result, ScanResult::Found);
    assert_eq!(
        scanner.finalize(),
        Some(Usage {
            prompt_tokens: Some(9),
            completion_tokens: Some(1),
            total_tokens: Some(10),
            ..Default::default()
        })
    );
}

#[test]
fn usage_non_stream_json() {
    let mut scanner = UsageScanner::new(ProviderKind::OpenAi);
    let body = b"{\"id\":\"chatcmpl-1\",\"object\":\"chat.completion\",\"choices\":[],\"usage\":{\"prompt_tokens\":7,\"completion_tokens\":14,\"total_tokens\":21}}";
    assert_eq!(scanner.scan_chunk(body), ScanResult::Found);
    assert_eq!(
        scanner.finalize(),
        Some(Usage {
            prompt_tokens: Some(7),
            completion_tokens: Some(14),
            total_tokens: Some(21),
            ..Default::default()
        })
    );
}

#[test]
fn usage_schema_dispatch_by_provider() {
    let payload =
        b"data: {\"usage\":{\"prompt_tokens\":7,\"input_tokens\":99,\"output_tokens\":5}}\n";

    let mut oai = UsageScanner::new(ProviderKind::OpenAi);
    oai.scan_chunk(payload);
    let oai_usage = oai.finalize().expect("openai usage");
    assert_eq!(oai_usage.prompt_tokens, Some(7));

    let mut ant = UsageScanner::new(ProviderKind::Anthropic);
    ant.scan_chunk(payload);
    let ant_usage = ant.finalize().expect("anthropic usage");
    assert_eq!(ant_usage.prompt_tokens, Some(99));
    assert_eq!(ant_usage.completion_tokens, Some(5));

    let mut generic = UsageScanner::new(ProviderKind::Generic);
    generic.scan_chunk(payload);
    let generic_usage = generic.finalize().expect("generic usage");
    assert_eq!(generic_usage.prompt_tokens, Some(7));
}

#[test]
fn usage_malformed_chunk_skipped() {
    let mut scanner = UsageScanner::new(ProviderKind::OpenAi);
    let malformed = b"data: {\"usage\":!!!not-json}\n";
    assert_eq!(scanner.scan_chunk(malformed), ScanResult::Skip);
    let mut only_bad = UsageScanner::new(ProviderKind::OpenAi);
    only_bad.scan_chunk(malformed);
    assert_eq!(only_bad.finalize(), None);

    let valid =
        b"data: {\"usage\":{\"prompt_tokens\":2,\"completion_tokens\":2,\"total_tokens\":4}}\n";
    assert_eq!(scanner.scan_chunk(valid), ScanResult::Found);
    assert_eq!(
        scanner.finalize(),
        Some(Usage {
            prompt_tokens: Some(2),
            completion_tokens: Some(2),
            total_tokens: Some(4),
            ..Default::default()
        })
    );
}

#[test]
fn usage_openai_no_include_usage() {
    let mut scanner = UsageScanner::new(ProviderKind::OpenAi);
    scanner.scan_chunk(b"data: {\"choices\":[{\"delta\":{\"content\":\"a\"}}]}\n");
    scanner.scan_chunk(b"data: {\"choices\":[{\"delta\":{\"content\":\"b\"}}]}\n");
    scanner.scan_chunk(b"data: {\"choices\":[{\"finish_reason\":\"stop\"}]}\n");
    scanner.scan_chunk(b"data: [DONE]\n");
    assert_eq!(scanner.finalize(), None);
}

#[test]
fn usage_openai_cached_tokens_from_details() {
    let mut scanner = UsageScanner::new(ProviderKind::OpenAi);
    let chunk = b"data: {\"choices\":[],\"usage\":{\"prompt_tokens\":100,\"completion_tokens\":50,\"total_tokens\":150,\"prompt_tokens_details\":{\"cached_tokens\":42}}}\n";
    assert_eq!(scanner.scan_chunk(chunk), ScanResult::Found);
    assert_eq!(
        scanner.finalize(),
        Some(Usage {
            prompt_tokens: Some(100),
            completion_tokens: Some(50),
            total_tokens: Some(150),
            cached_tokens: Some(42),
        })
    );
}

#[test]
fn usage_openai_no_details_cached_tokens_none() {
    let mut scanner = UsageScanner::new(ProviderKind::OpenAi);
    let chunk = b"data: {\"choices\":[],\"usage\":{\"prompt_tokens\":100,\"completion_tokens\":50,\"total_tokens\":150}}\n";
    scanner.scan_chunk(chunk);
    let u = scanner.finalize().expect("usage");
    assert_eq!(u.cached_tokens, None);
}

#[test]
fn usage_anthropic_cached_tokens() {
    let mut scanner = UsageScanner::new(ProviderKind::Anthropic);
    let chunk = b"event: message_delta\ndata: {\"type\":\"message_delta\",\"usage\":{\"input_tokens\":120,\"output_tokens\":30,\"cache_read_input_tokens\":77}}\n\n";
    assert_eq!(scanner.scan_chunk(chunk), ScanResult::Found);
    assert_eq!(
        scanner.finalize(),
        Some(Usage {
            prompt_tokens: Some(120),
            completion_tokens: Some(30),
            total_tokens: Some(150),
            cached_tokens: Some(77),
        })
    );
}

#[test]
fn usage_generic_top_level_cached_tokens() {
    let mut scanner = UsageScanner::new(ProviderKind::Generic);
    let chunk = b"data: {\"usage\":{\"prompt_tokens\":10,\"completion_tokens\":5,\"total_tokens\":15,\"cached_tokens\":8}}\n";
    scanner.scan_chunk(chunk);
    let u = scanner.finalize().expect("generic usage");
    assert_eq!(u.cached_tokens, Some(8));
}

#[test]
fn usage_openai_details_without_cached_field() {
    let mut scanner = UsageScanner::new(ProviderKind::OpenAi);
    let chunk = b"data: {\"choices\":[],\"usage\":{\"prompt_tokens\":5,\"total_tokens\":5,\"prompt_tokens_details\":{\"audio_tokens\":1}}}\n";
    scanner.scan_chunk(chunk);
    let u = scanner.finalize().expect("usage");
    assert_eq!(u.cached_tokens, None);
}

#[test]
fn usage_anthropic_coalesced_in_one_chunk() {
    let mut scanner = UsageScanner::new(ProviderKind::Anthropic);
    let chunk = "event: message_start\ndata: {\"type\":\"message_start\",\"message\":{\"id\":\"msg_1\",\"usage\":{\"input_tokens\":42,\"output_tokens\":1}}}\n\nevent: message_delta\ndata: {\"type\":\"message_delta\",\"usage\":{\"output_tokens\":13,\"cache_read_input_tokens\":7}}\n\nevent: message_stop\ndata: {\"type\":\"message_stop\"}\n\n";
    assert_eq!(scanner.scan_chunk(chunk.as_bytes()), ScanResult::Found);
    assert_eq!(
        scanner.finalize(),
        Some(Usage {
            prompt_tokens: Some(42),
            completion_tokens: Some(13),
            total_tokens: Some(55),
            cached_tokens: Some(7),
        })
    );
}

#[test]
fn usage_anthropic_separate_chunks() {
    let mut scanner = UsageScanner::new(ProviderKind::Anthropic);
    scanner.scan_chunk(
        "event: message_start\ndata: {\"type\":\"message_start\",\"message\":{\"id\":\"msg_1\",\"usage\":{\"input_tokens\":42,\"output_tokens\":1}}}\n\n"
        .as_bytes(),
    );
    scanner.scan_chunk(
        "event: message_delta\ndata: {\"type\":\"message_delta\",\"usage\":{\"output_tokens\":13,\"cache_read_input_tokens\":7}}\n\nevent: message_stop\ndata: {\"type\":\"message_stop\"}\n\n"
        .as_bytes(),
    );
    assert_eq!(
        scanner.finalize(),
        Some(Usage {
            prompt_tokens: Some(42),
            completion_tokens: Some(13),
            total_tokens: Some(55),
            cached_tokens: Some(7),
        })
    );
}

#[test]
fn usage_openai_single_chunk_unchanged() {
    let mut scanner = UsageScanner::new(ProviderKind::Generic);
    let chunk = b"data: {\"choices\":[],\"usage\":{\"prompt_tokens\":10,\"completion_tokens\":5,\"total_tokens\":15}}\n";
    assert_eq!(scanner.scan_chunk(chunk), ScanResult::Found);
    assert_eq!(
        scanner.finalize(),
        Some(Usage {
            prompt_tokens: Some(10),
            completion_tokens: Some(5),
            total_tokens: Some(15),
            ..Default::default()
        })
    );
}

#[test]
fn usage_anthropic_split_across_chunks() {
    let mut scanner = UsageScanner::new(ProviderKind::Anthropic);
    scanner.scan_chunk(
        "event: message_start\ndata: {\"type\":\"message_start\",\"usage\":{\"input_tokens\":42,\"output_tokens\":1}}\n\nevent: message_delta\ndata: {\"type\":\"message_delta\",\"usage\":{\"output_tokens\":13,\"cache_read_input"
        .as_bytes(),
    );
    scanner
        .scan_chunk(b"_tokens\":7}}\n\nevent: message_stop\ndata: {\"type\":\"message_stop\"}\n\n");

    assert_eq!(
        scanner.finalize(),
        Some(Usage {
            prompt_tokens: Some(42),
            completion_tokens: Some(13),
            total_tokens: Some(55),
            cached_tokens: Some(7),
        })
    );
}

#[test]
fn usage_openai_split_across_chunks_no_double_count() {
    let mut scanner = UsageScanner::new(ProviderKind::OpenAi);
    scanner.scan_chunk(
        b"data: {\"choices\":[{\"delta\":{\"content\":\"hi\"}}]}\n\
         data: {\"choices\":[],\"usage\":{\"prompt_tokens\":10,\"completion_to",
    );
    let result = scanner.scan_chunk(b"kens\":5,\"total_tokens\":15}}\n");
    assert_eq!(result, ScanResult::Found);
    assert_eq!(
        scanner.finalize(),
        Some(Usage {
            prompt_tokens: Some(10),
            completion_tokens: Some(5),
            total_tokens: Some(15),
            ..Default::default()
        })
    );
}

fn finish(kind: ProviderKind, chunks: &[&[u8]]) -> (Vec<ScanResult>, Option<Usage>) {
    let mut scanner = UsageScanner::new(kind);
    let results = chunks.iter().map(|c| scanner.scan_chunk(c)).collect();
    (results, scanner.finalize())
}

#[test]
fn cutting_makes_no_difference() {
    let stream = b"event: a\ndata: {\"usage\":{\"input_tokens\":4,\"output_tokens\":1}}\n\nevent: b\ndata: {\"usage\":{\"output_tokens\":6}}\n\n";
    let whole = finish(ProviderKind::Anthropic, &[stream]).1;
    assert_eq!(whole.unwrap().total_tokens, Some(10));
    for cut in 0..stream.len() {
        let (a, b) = stream.split_at(cut);
        let line = &a[a.iter().rposition(|x| *x == b'\n').map_or(0, |i| i + 1)..];
        let inside_the_tag = !line.is_empty() && line.len() < 5 && b"data:".starts_with(line);
        if !inside_the_tag {
            assert_eq!(finish(ProviderKind::Anthropic, &[a, b]).1, whole, "cut at {cut}");
        }
    }
}

#[test]
fn last_object_wins() {
    let two = b"data: {\"usage\":{\"prompt_tokens\":1,\"total_tokens\":9}}\ndata: {\"usage\":{\"completion_tokens\":2}}\n";
    let u = finish(ProviderKind::OpenAi, &[two]).1.unwrap();
    assert_eq!(
        (u.prompt_tokens, u.completion_tokens, u.total_tokens),
        (None, Some(2), None)
    );
    let two = b"data: {\"usage\":{\"input_tokens\":1}}\ndata: {\"usage\":{\"output_tokens\":2}}\n";
    let u = finish(ProviderKind::Anthropic, &[two]).1.unwrap();
    assert_eq!(
        (u.prompt_tokens, u.completion_tokens, u.total_tokens),
        (Some(1), Some(2), Some(3))
    );
}

#[test]
fn total_that_does_not_fit_is_left_out() {
    let chunk = b"data: {\"usage\":{\"input_tokens\":18446744073709551615,\"output_tokens\":1}}\n";
    let u = finish(ProviderKind::Anthropic, &[chunk]).1.unwrap();
    assert_eq!(u.total_tokens, None);
    let chunk = b"data: {\"usage\":{\"input_tokens\":3}}\n";
    assert_eq!(finish(ProviderKind::Anthropic, &[chunk]).1.unwrap().total_tokens, None);
}

#[test]
fn braces_inside_strings_do_not_count() {
    let body = br#"{"usage":{"note":"}{\"}","prompt_tokens":5}}"#;
    let u = finish(ProviderKind::OpenAi, &[body]).1.unwrap();
    assert_eq!(u.prompt_tokens, Some(5));
}

#[test]
fn details_in_all_their_forms() {
    let read = |details: &str| {
        let body = format!("{{\"usage\":{{\"prompt_tokens\":1,\"prompt_tokens_details\":{details}}}}}");
        finish(ProviderKind::OpenAi, &[body.as_bytes()]).1.map(|u| u.cached_tokens)
    };
    assert_eq!(read("{\"cached_tokens\":3}"), Some(Some(3)));
    assert_eq!(read("{\"cached_tokens\":null}"), Some(None));
    assert_eq!(read("null"), Some(None));
    assert_eq!(read("[4]"), Some(Some(4)));
    assert_eq!(read("[]"), Some(None));
    assert_eq!(read("[4,5]"), None);
    assert_eq!(read("7"), None);
    assert_eq!(read("{\"cached_tokens\":\"3\"}"), None);
}

#[test]
fn counts_that_are_no_counts_spoil_the_object() {
    let bad: [&[u8]; 4] = [
        b"{\"usage\":{\"prompt_tokens\":-1}}",
        b"{\"usage\":{\"prompt_tokens\":1.5}}",
        b"{\"usage\":{\"prompt_tokens\":\"1\"}}",
        b"{\"usage\":{\"prompt_tokens\":1,}}",
    ];
    for body in bad {
        assert_eq!(finish(ProviderKind::OpenAi, &[body]), (vec![ScanResult::Skip], None));
    }
    for total in ["\"9\"", "-1", "1.5", "[]", "1,\"total_tokens\":2"] {
        let body = format!("{{\"usage\":{{\"prompt_tokens\":4,\"total_tokens\":{total}}}}}");
        let (r, u) = finish(ProviderKind::OpenAi, &[body.as_bytes()]);
        assert_eq!(r, [ScanResult::Found]);
        let u = u.unwrap();
        assert_eq!((u.prompt_tokens, u.total_tokens), (Some(4), None));
    }
    let null = b"{\"usage\":{\"prompt_tokens\":null,\"input_tokens\":8}}";
    assert_eq!(finish(ProviderKind::Generic, &[null]).1.unwrap().prompt_tokens, Some(8));
}

#[test]
fn terminator_is_told_with_or_without_usage() {
    let both = b"data: {\"usage\":{\"prompt_tokens\":1}}\ndata: [DONE]\n";
    let (r, u) = finish(ProviderKind::OpenAi, &[both]);
    assert_eq!(r, [ScanResult::Done]);
    assert_eq!(u.unwrap().prompt_tokens, Some(1));
    let (r, u) = finish(ProviderKind::OpenAi, &[b"data: [DO", b"NE]\n"]);
    assert_eq!(r, [ScanResult::Skip, ScanResult::Done]);
    assert_eq!(u, None);
}

#[test]
fn terminator_is_a_payload_of_its_own() {
    let quoted = b"data: {\"choices\":[{\"delta\":{\"content\":\"[DONE]\"}}]}\n";
    let usage = b"data: {\"usage\":{\"prompt_tokens\":1}}\n";
    let (r, u) = finish(ProviderKind::OpenAi, &[quoted, usage]);
    assert_eq!(r, [ScanResult::Skip, ScanResult::Found]);
    assert_eq!(u.unwrap().prompt_tokens, Some(1));
    assert_eq!(finish(ProviderKind::OpenAi, &[b"[DONE]\n"]).0, [ScanResult::Skip]);
    assert_eq!(finish(ProviderKind::OpenAi, &[b"data: [DONE] x\n"]).0, [ScanResult::Skip]);
    assert_eq!(finish(ProviderKind::OpenAi, &[b"data:[DONE]\r\n"]).0, [ScanResult::Done]);
    assert_eq!(finish(ProviderKind::OpenAi, &[b"\ndata: [DONE]"]).0, [ScanResult::Done]);
}

#[test]
fn nothing_counts_behind_the_terminator() {
    let stream = b"data: {\"usage\":{\"prompt_tokens\":1}}\ndata: [DONE]\ndata: {\"usage\":{\"prompt_tokens\":9}}\n";
    let (r, u) = finish(ProviderKind::OpenAi, &[stream]);
    assert_eq!(r, [ScanResult::Done]);
    assert_eq!(u.unwrap().prompt_tokens, Some(1));
    let later = b"data: {\"usage\":{\"prompt_tokens\":9}}\n";
    let (r, u) = finish(ProviderKind::OpenAi, &[b"data: [DONE]\n", later]);
    assert_eq!(r, [ScanResult::Done, ScanResult::Skip]);
    assert_eq!(u, None);
    let cut = stream.len() - 20;
    let (r, u) = finish(ProviderKind::OpenAi, &[&stream[..cut], &stream[cut..]]);
    assert_eq!(r, [ScanResult::Done, ScanResult::Skip]);
    assert_eq!(u.unwrap().prompt_tokens, Some(1));
}

#[test]
fn whole_lines_come_to_the_same_in_any_chunks() {
    let lines: [&[u8]; 6] = [
        b"event: a\n",
        b"data: {\"usage\":{\"input_tokens\":4,\"output_tokens\":1}}\n",
        b"data:\n",
        b"data:  \r\n",
        b": ping\n\n",
        b"data: {\"usage\":{\"output_tokens\":6}}\n",
    ];
    let whole = finish(ProviderKind::Anthropic, &[lines.concat().as_slice()]).1;
    assert_eq!(whole.unwrap().total_tokens, Some(10));
    assert_eq!(finish(ProviderKind::Anthropic, &lines).1, whole);
    for cut in 0..lines.len() {
        let (a, b) = lines.split_at(cut);
        let chunks = [a.concat(), b.concat()];
        assert_eq!(finish(ProviderKind::Anthropic, &[&chunks[0], &chunks[1]]).1, whole);
    }
}

#[test]
fn blank_field_does_not_swallow_the_next_line() {
    let stream = b"data:\ndata: {\"usage\":{\"prompt_tokens\":3}}\n";
    let (r, u) = finish(ProviderKind::OpenAi, &[stream]);
    assert_eq!(r, [ScanResult::Found]);
    assert_eq!(u.unwrap().prompt_tokens, Some(3));
}

#[test]
fn complete_object_is_not_read_twice() {
    let (r, u) = finish(
        ProviderKind::OpenAi,
        &[b"data: {\"usage\":{\"prompt_tokens\":1}}", b"\n\ndata: {}\n"],
    );
    assert_eq!(r, [ScanResult::Found, ScanResult::Skip]);
    assert_eq!(u.unwrap().prompt_tokens, Some(1));
}

#[test]
fn members_are_read_as_json_has_them() {
    let read = |body: &[u8]| finish(ProviderKind::OpenAi, &[body]).1.map(|u| u.prompt_tokens);
    assert_eq!(read(b"{\"usage\": { \"prompt_tokens\" :\t3 ,\r\"x\" : [1,{}] } }"), Some(Some(3)));
    assert_eq!(read(b"{\"usage\":{}}"), Some(None));
    assert_eq!(read(b"{\"usage\":{ }}"), Some(None));
    assert_eq!(read(b"{\"usage\":{\"prompt\\u005ftokens\":4}}"), Some(Some(4)));
    assert_eq!(read(b"{\"usage\":{\"prompt_tokens\":5,\"x\":\"\xff\"}}"), Some(Some(5)));
    assert_eq!(read(b"{\"usage\":{\"x\":1,\"x\":2,\"prompt_tokens\":6}}"), Some(Some(6)));
    assert_eq!(read(b"{\"usage\":{\"prompt_tokens\":1,\"prompt_tokens\":1}}"), None);
    assert_eq!(read(b"{\"usage\":{\"cached_tokens\":1,\"cached_tokens\":1}}"), None);
    assert_eq!(read(b"{\"usage\":{\"\xff\":1,\"prompt_tokens\":1}}"), None);
    assert_eq!(read(b"{\"usage\":{\"prompt_tokens\" 1}}"), None);
    assert_eq!(read(b"{\"usage\":{\"prompt_tokens\":1 \"x\":2}}"), None);
    assert_eq!(read(b"{\"usage\":{prompt_tokens:1}}"), None);
    assert_eq!(read(b"{\"usage\":{\"x\":1,}}"), None);
    assert_eq!(read(b"{\"usage\":{,}}"), None);
}

#[test]
fn fields_are_read_from_the_object_itself() {
    let f = read_openai(b"{\"prompt_tokens\":1,\"prompt_tokens_details\":{\"cached_tokens\":2}}").unwrap();
    assert_eq!((f.prompt_tokens, f.details_cached_tokens), (Some(1), Some(2)));
    assert_eq!(f.total_tokens, None);
    assert_eq!(read_openai(b" {\"total_tokens\":9} \n").unwrap().total_tokens, Some(9));
    assert_eq!(read_openai(b"[]"), None);
    assert_eq!(read_openai(b"{} x"), None);
    assert_eq!(read_openai(b""), None);
    let a = read_anthropic(b"{\"input_tokens\":1,\"output_tokens\":null}").unwrap();
    assert_eq!((a.input_tokens, a.output_tokens, a.cache_read_input_tokens), (Some(1), None, None));
    assert_eq!(read_anthropic(b"{\"output_tokens\":[]}"), None);
}
