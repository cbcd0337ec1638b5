use api_client::dispatch::{
    classify_response, prepare_dispatch, status_label, transport_failure_record, Request,
    MAX_RESPONSE_DISPLAY_BYTES,
};
use api_client::json::{json_to_text, text_to_json, JsonValue};
use api_client::method::{method_from_name, HttpMethod};
use api_client::query::{build_url_with_params, effective_pairs, urlencoding, KeyValuePair};

fn row(key: &str, value: &str, enabled: bool) -> KeyValuePair {
    KeyValuePair {
        key: key.to_string(),
        value: value.to_string(),
        enabled,
    }
}

fn plain_request(method: HttpMethod, url: &str, body: &str) -> Request {
    Request {
        name: "probe".to_string(),
        method,
        url: url.to_string(),
        params: Vec::new(),
        headers: Vec::new(),
        body: body.to_string(),
    }
}

#[test]
fn get_with_body_text_sends_no_body() {
    let req = plain_request(HttpMethod::Get, "http://x/y", "{\"k\":1}");
    let plan = prepare_dispatch(&req);
    assert_eq!(plan.body, None);
    let req = plain_request(HttpMethod::Delete, "http://x/y", "payload");
    assert_eq!(prepare_dispatch(&req).body, None);
}

#[test]
fn body_verbs_send_nonempty_bodies() {
    for m in [HttpMethod::Post, HttpMethod::Put, HttpMethod::Patch] {
        let req = plain_request(m, "http://x/y", "payload");
        assert_eq!(prepare_dispatch(&req).body.as_deref(), Some("payload"));
        let req = plain_request(m, "http://x/y", "");
        assert_eq!(prepare_dispatch(&req).body, None);
    }
}

#[test]
fn an_empty_effective_url_means_no_call() {
    let req = plain_request(HttpMethod::Get, "", "");
    assert!(!prepare_dispatch(&req).has_url());
    // a parameter gives the URL a query part, so a call is made
    let mut req = plain_request(HttpMethod::Get, "", "");
    req.params.push(row("a", "1", true));
    let plan = prepare_dispatch(&req);
    assert!(plan.has_url());
    assert_eq!(plan.url, "?a=1");
    assert!(prepare_dispatch(&plain_request(HttpMethod::Get, "http://x/y", "")).has_url());
}

#[test]
fn empty_key_rows_never_reach_the_request() {
    let rows = vec![
        row("a", "1", true),
        row("", "ignored", true),
        row("", "also ignored", false),
        row("b", "2", false),
        row("c", "3", true),
    ];
    let pairs = effective_pairs(&rows);
    assert_eq!(
        pairs,
        vec![
            ("a".to_string(), "1".to_string()),
            ("c".to_string(), "3".to_string())
        ]
    );
}

#[test]
fn url_with_one_effective_param() {
    let params = vec![row("a", "1", true), row("", "ignored", true)];
    let url = build_url_with_params("http://x/y", &params);
    assert_eq!(url, "http://x/y?a=1");
}

#[test]
fn url_without_effective_params_is_untouched() {
    let params = vec![row("", "v", true), row("x", "1", false)];
    assert_eq!(build_url_with_params("http://x/y", &params), "http://x/y");
}

#[test]
fn url_that_already_has_a_query_extends_it() {
    let params = vec![row("b", "2", true)];
    assert_eq!(
        build_url_with_params("http://x/y?a=1", &params),
        "http://x/y?a=1&b=2"
    );
}

#[test]
fn urlencoding_maps_spaces_and_escapes() {
    assert_eq!(urlencoding("a b"), "a+b");
    assert_eq!(urlencoding("a/b"), "a%2Fb");
    assert_eq!(urlencoding("x-._~09Zz"), "x-._~09Zz");
    assert_eq!(urlencoding("\u{e9}"), "%E9");
    assert_eq!(urlencoding("\u{20ac}"), "%20AC");
}

#[test]
fn status_labels_follow_the_buckets() {
    assert_eq!(status_label(200), "OK");
    assert_eq!(status_label(299), "OK");
    assert_eq!(status_label(404), "Client Error");
    assert_eq!(status_label(500), "Server Error");
    assert_eq!(status_label(599), "Server Error");
    assert_eq!(status_label(302), "Response");
    assert_eq!(status_label(601), "Response");
    assert_eq!(status_label(0), "Response");
}

#[test]
fn oversize_guard_cuts_exactly_past_the_limit() {
    assert_eq!(MAX_RESPONSE_DISPLAY_BYTES, 100_000);
    let at_limit = "a".repeat(100_000);
    let rec = classify_response(200, at_limit.clone(), 5);
    assert!(!rec.body_oversized);
    assert_eq!(rec.body, at_limit);
    let over = "a".repeat(100_001);
    let rec = classify_response(200, over.clone(), 5);
    assert!(rec.body_oversized);
    assert_eq!(rec.body, over);
    // an oversized body is kept raw even when it is JSON
    let big_json = format!("\"{}\"", "a".repeat(99_999));
    assert_eq!(big_json.len(), 100_001);
    let rec = classify_response(200, big_json.clone(), 5);
    assert!(rec.body_oversized);
    assert_eq!(rec.body, big_json);
}

#[test]
fn structured_bodies_are_rerendered() {
    let rec = classify_response(200, "{\"a\":1,\"b\":[true,null]}".to_string(), 7);
    assert!(!rec.body_oversized);
    assert_eq!(rec.status_code, 200);
    assert_eq!(rec.status_label, "OK");
    assert_eq!(rec.elapsed_ms, 7);
    assert_eq!(rec.body, "{\n  \"a\": 1,\n  \"b\": [\n    true,\n    null\n  ]\n}");
}

#[test]
fn unstructured_bodies_are_kept_raw() {
    let rec = classify_response(200, "plain text, not json".to_string(), 1);
    assert_eq!(rec.body, "plain text, not json");
    let rec = classify_response(200, "{\"a\":".to_string(), 1);
    assert_eq!(rec.body, "{\"a\":");
}

#[test]
fn transport_failures_become_error_records() {
    let rec = transport_failure_record("connection refused", 42);
    assert_eq!(rec.status_code, 0);
    assert_eq!(rec.status_label, "Error");
    assert_eq!(rec.body, "Error: connection refused");
    assert_eq!(rec.elapsed_ms, 42);
    assert!(!rec.body_oversized);
}

#[test]
fn verbs_cycle_and_name_themselves() {
    assert_eq!(HttpMethod::Get.as_str(), "GET");
    assert_eq!(HttpMethod::Patch.as_str(), "PATCH");
    assert_eq!(HttpMethod::Get.next(), HttpMethod::Post);
    assert_eq!(HttpMethod::Post.next(), HttpMethod::Put);
    assert_eq!(HttpMethod::Put.next(), HttpMethod::Delete);
    assert_eq!(HttpMethod::Delete.next(), HttpMethod::Patch);
    assert_eq!(HttpMethod::Patch.next(), HttpMethod::Get);
}

#[test]
fn verb_names_decode_without_regard_to_case() {
    assert_eq!(method_from_name("patch"), Some(HttpMethod::Patch));
    assert_eq!(method_from_name("PaTcH"), Some(HttpMethod::Patch));
    assert_eq!(method_from_name("GET"), Some(HttpMethod::Get));
    assert_eq!(method_from_name("delete"), Some(HttpMethod::Delete));
    assert_eq!(method_from_name("HEAD"), None);
    assert_eq!(method_from_name(""), None);
}

#[test]
fn json_parses_escapes_and_reprints_them() {
    let doc = text_to_json("\"a\\u0041\\n\\t\\\\\\\"\"").expect("a string literal");
    assert_eq!(
        doc,
        JsonValue::Str("aA\n\t\\\"".to_string())
    );
    assert_eq!(json_to_text(&doc), "\"aA\\n\\t\\\\\\\"\"");
}

#[test]
fn json_surrogate_pairs_decode_to_one_character() {
    let doc = text_to_json("\"\\uD83D\\uDE00\"").expect("an emoji");
    assert_eq!(doc, JsonValue::Str("\u{1F600}".to_string()));
    assert_eq!(text_to_json("\"\\uD83D\""), None);
    assert_eq!(text_to_json("\"\\uDE00\""), None);
}

#[test]
fn json_rejects_malformed_texts() {
    assert_eq!(text_to_json("{"), None);
    assert_eq!(text_to_json("tru"), None);
    assert_eq!(text_to_json("01"), None);
    assert_eq!(text_to_json("+1"), None);
    assert_eq!(text_to_json("{\"a\":1,}"), None);
    assert_eq!(text_to_json("[1 2]"), None);
    assert_eq!(text_to_json("\"unterminated"), None);
    assert_eq!(text_to_json(""), None);
    assert_eq!(text_to_json("{\"a\":1} extra"), None);
}

#[test]
fn json_accepts_whitespace_and_numbers() {
    let doc = text_to_json(" { \"n\" : -1.5e3 , \"m\" : [ 0 ] } ").expect("an object");
    assert_eq!(
        json_to_text(&doc),
        "{\n  \"n\": -1.5e3,\n  \"m\": [\n    0\n  ]\n}"
    );
    assert_eq!(text_to_json("[]").map(|d| json_to_text(&d)), Some("[]".to_string()));
    assert_eq!(text_to_json("{}").map(|d| json_to_text(&d)), Some("{}".to_string()));
}
