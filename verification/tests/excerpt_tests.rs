use zepm::{
    answer_after_generation, complete_at_cursor, decimal_text, BARE_CURSOR_MARKER,
    complete_excerpt, detect_language, extract_context, fallback_output, get_fallback_completion,
    infill_url, parse_bool_flag, parse_decimal_u32, parse_max_tokens, parse_port,
    plan_predict_edits, request_flags, sample_output_excerpt, splice_at_cursor,
    strip_cursor_markers, test_completion_output, ExtractError, FallbackLanguage,
    PredictEditsRequest, PredictEditsResponse, PredictPlan, CURSOR_MARKER,
    EDITABLE_REGION_END_MARKER, EDITABLE_REGION_START_MARKER,
};

fn excerpt(body: &str) -> String {
    format!("{}{}{}", EDITABLE_REGION_START_MARKER, body, EDITABLE_REGION_END_MARKER)
}

fn request_with(input: Option<String>) -> PredictEditsRequest {
    PredictEditsRequest {
        input_excerpt: input,
        input_events: None,
        outline: None,
        speculated_output: None,
    }
}

#[test]
fn test_get_fallback_completion_js() {
    let input = "function foo() {}";
    let result = get_fallback_completion(input);
    assert!(result.contains("Generated JS code"));
}

#[test]
fn test_get_fallback_completion_py() {
    let input = "def foo(): pass";
    let result = get_fallback_completion(input);
    assert!(result.contains("Generated Python code"));
}

#[test]
fn test_get_fallback_completion_rs() {
    let input = "fn foo() {}";
    let result = get_fallback_completion(input);
    assert!(result.contains("Generated Rust code"));
}

#[test]
fn test_extract_context_success() {
    let input = format!(
        "{}\nfn foo() {{}}\n{}\n{}",
        EDITABLE_REGION_START_MARKER, CURSOR_MARKER, EDITABLE_REGION_END_MARKER
    );
    let res = extract_context(&input);
    assert!(res.is_ok());
    let (prefix, suffix, pos) = res.unwrap();
    assert!(prefix.contains("fn foo()"));
    assert_eq!(suffix, "\n");
    assert!(pos > 0);
}

#[test]
fn test_extract_context_missing_markers() {
    let input = "let x = 1;";
    let res = extract_context(input);
    assert!(res.is_err());
}

#[test]
fn test_async_test_completion_returns_sample() {
    let output_excerpt = sample_output_excerpt();
    assert!(output_excerpt.contains("Generated function example"));
}

#[test]
fn test_test_completion_with_cursor() {
    let input = format!(
        "{}\nfn foo() {{}}\n{}\n{}",
        EDITABLE_REGION_START_MARKER, CURSOR_MARKER, EDITABLE_REGION_END_MARKER
    );
    let output = test_completion_output(Some(input.as_str()));
    assert!(output.is_some());
    assert!(output.unwrap().contains("// Test completion inserted"));
}

#[test]
fn test_predict_edits_v2_fallback() {
    let input = format!(
        "{}\nfn foo() {{}}\n{}\n{}",
        EDITABLE_REGION_START_MARKER, CURSOR_MARKER, EDITABLE_REGION_END_MARKER
    );
    let flags = request_flags("fallback=true", true, false);
    let request = request_with(Some(input));
    match plan_predict_edits(&flags, &request) {
        PredictPlan::Respond(output_excerpt) => {
            assert!(output_excerpt.contains("Generated Rust code"))
        }
        _ => panic!("expected a fallback answer"),
    }
}

#[test]
fn extract_context_exact_pieces() {
    let input = format!(
        "head{}ab{}cd{}tail",
        EDITABLE_REGION_START_MARKER, CURSOR_MARKER, EDITABLE_REGION_END_MARKER
    );
    let (prefix, suffix, pos) = extract_context(&input).unwrap();
    assert_eq!(prefix, "ab");
    assert_eq!(suffix, "cd");
    assert_eq!(pos, 4 + EDITABLE_REGION_START_MARKER.len() + 2);
    assert_eq!(&input[pos..pos + CURSOR_MARKER.len()], CURSOR_MARKER);
}

#[test]
fn extract_context_uses_last_cursor_in_region() {
    let input = excerpt(&format!("a{}b{}c", CURSOR_MARKER, CURSOR_MARKER));
    let (prefix, suffix, _) = extract_context(&input).unwrap();
    assert_eq!(prefix, format!("a{}b", CURSOR_MARKER));
    assert_eq!(suffix, "c");
}

#[test]
fn extract_context_ignores_cursor_outside_region() {
    let input = format!("{}{}x{}", CURSOR_MARKER, EDITABLE_REGION_START_MARKER, EDITABLE_REGION_END_MARKER);
    assert_eq!(
        extract_context(&input),
        Err(ExtractError::MissingCursor { region_len: 1 })
    );
}

#[test]
fn extract_context_multibyte_text() {
    let input = excerpt(&format!("é€{}😀", CURSOR_MARKER));
    let (prefix, suffix, pos) = extract_context(&input).unwrap();
    assert_eq!(prefix, "é€");
    assert_eq!(suffix, "😀");
    assert_eq!(pos, EDITABLE_REGION_START_MARKER.len() + "é€".len());
}

#[test]
fn extract_context_missing_start() {
    let input = format!("x{}{}", CURSOR_MARKER, EDITABLE_REGION_END_MARKER);
    assert_eq!(extract_context(&input), Err(ExtractError::MissingRegionStart));
}

#[test]
fn extract_context_missing_end() {
    let input = format!("{}x{}", EDITABLE_REGION_START_MARKER, CURSOR_MARKER);
    assert_eq!(extract_context(&input), Err(ExtractError::MissingRegionEnd));
}

#[test]
fn extract_context_empty_region() {
    let input = format!("{}{}", EDITABLE_REGION_START_MARKER, EDITABLE_REGION_END_MARKER);
    let n = EDITABLE_REGION_START_MARKER.len();
    assert_eq!(
        extract_context(&input),
        Err(ExtractError::EmptyRegion { start: n, end: n })
    );
}

#[test]
fn extract_context_end_before_start() {
    let input = format!("{}{}{}", EDITABLE_REGION_END_MARKER, CURSOR_MARKER, EDITABLE_REGION_START_MARKER);
    let start = EDITABLE_REGION_END_MARKER.len() + CURSOR_MARKER.len() + EDITABLE_REGION_START_MARKER.len();
    assert_eq!(
        extract_context(&input),
        Err(ExtractError::EmptyRegion { start, end: 0 })
    );
}

#[test]
fn fallback_languages_in_priority_order() {
    assert_eq!(detect_language("import os\nconst x"), FallbackLanguage::JavaScript);
    assert_eq!(detect_language("see main.py"), FallbackLanguage::Python);
    assert_eq!(detect_language("pub struct S;"), FallbackLanguage::Rust);
    assert_eq!(detect_language("plain words"), FallbackLanguage::Plain);
    assert_eq!(
        get_fallback_completion("plain words"),
        "// Generated code\n// Replace with your implementation"
    );
}

#[test]
fn strip_removes_each_marker_once() {
    assert_eq!(strip_cursor_markers(&format!("a{}b{}", CURSOR_MARKER, CURSOR_MARKER)), "ab");
    assert_eq!(strip_cursor_markers("no markers"), "no markers");
    let nested = format!("<|user_{}cursor_is_here|>", CURSOR_MARKER);
    assert_eq!(strip_cursor_markers(&nested), CURSOR_MARKER);
}

#[test]
fn splice_replaces_marker() {
    let input = excerpt(&format!("ab{}cd", CURSOR_MARKER));
    let (_, _, pos) = extract_context(&input).unwrap();
    let out = splice_at_cursor(&input, pos, "XY");
    assert_eq!(out, excerpt("abXYcd"));
    assert_eq!(splice_at_cursor(&input, pos, CURSOR_MARKER), input);
}

#[test]
fn splice_near_end_truncates() {
    assert_eq!(splice_at_cursor("abc", 1, "Z"), "aZ");
}

#[test]
fn complete_excerpt_choices() {
    let input = excerpt(&format!("fn main() {{{}}}", CURSOR_MARKER));
    let (_, _, pos) = extract_context(&input).unwrap();
    let normal = complete_excerpt(&input, pos, &format!("x{}y", CURSOR_MARKER), false);
    assert_eq!(normal, excerpt("fn main() {xy}"));
    let forced = complete_excerpt(&input, pos, "ignored", true);
    assert!(forced.contains("// Generated fields"));
    assert!(!forced.contains("ignored"));
    let only_markers = complete_excerpt(&input, pos, CURSOR_MARKER, false);
    assert!(only_markers.contains("Generated Rust code"));
    let empty = complete_excerpt(&input, pos, "", false);
    assert_eq!(empty, excerpt("fn main() {}"));
}

#[test]
fn fallback_output_needs_cursor() {
    assert!(fallback_output("no markers at all").is_none());
    let input = excerpt(&format!("const a = 1;{}", CURSOR_MARKER));
    let out = fallback_output(&input).unwrap();
    assert!(out.starts_with(&format!("{}const a = 1;// Generated JS code", EDITABLE_REGION_START_MARKER)));
    assert!(out.ends_with(EDITABLE_REGION_END_MARKER));
}

#[test]
fn test_completion_without_input_or_cursor() {
    assert!(test_completion_output(None).is_none());
    assert!(test_completion_output(Some("no cursor")).is_none());
    let cursor_outside = format!("{}{}x{}", CURSOR_MARKER, EDITABLE_REGION_START_MARKER, EDITABLE_REGION_END_MARKER);
    assert!(test_completion_output(Some(cursor_outside.as_str())).is_none());
}

#[test]
fn request_flags_from_query() {
    let f = request_flags("debug=true&force=true", false, false);
    assert!(f.force_debug && f.force_completion && f.should_debug && !f.force_fallback);
    let g = request_flags("", true, true);
    assert!(!g.force_debug && g.force_fallback && !g.force_completion && g.should_debug);
}

#[test]
fn plan_missing_excerpt_and_generate() {
    let flags = request_flags("force=true", false, false);
    assert!(matches!(
        plan_predict_edits(&flags, &request_with(None)),
        PredictPlan::MissingExcerpt
    ));
    assert!(matches!(
        plan_predict_edits(&flags, &request_with(Some("x".to_string()))),
        PredictPlan::Generate { debug: false, force_completion: true }
    ));
    let fallback = request_flags("fallback=true", false, false);
    assert!(matches!(
        plan_predict_edits(&fallback, &request_with(Some("x".to_string()))),
        PredictPlan::Sample
    ));
}

#[test]
fn response_has_uuid_v4_id() {
    let r = PredictEditsResponse::new("out".to_string());
    assert_eq!(r.output_excerpt, "out");
    let id: Vec<char> = r.request_id.chars().collect();
    assert_eq!(id.len(), 36);
    assert_eq!(id[8], '-');
    assert_eq!(id[14], '4');
    assert!(matches!(id[19], '8' | '9' | 'a' | 'b'));
    let other = PredictEditsResponse::new("out".to_string());
    assert_ne!(r.request_id, other.request_id);
}

#[test]
fn settings_parsing() {
    assert_eq!(parse_decimal_u32("42"), Some(42));
    assert_eq!(parse_decimal_u32("+7"), Some(7));
    assert_eq!(parse_decimal_u32("4294967295"), Some(4294967295));
    assert_eq!(parse_decimal_u32("4294967296"), None);
    assert_eq!(parse_decimal_u32("-1"), None);
    assert_eq!(parse_decimal_u32("+"), None);
    assert_eq!(parse_decimal_u32(""), None);
    assert_eq!(parse_decimal_u32("12a"), None);
    assert_eq!(parse_max_tokens(None), 128);
    assert_eq!(parse_max_tokens(Some("64")), 64);
    assert_eq!(parse_max_tokens(Some("lots")), 128);
    assert_eq!(parse_port(None), 3000);
    assert_eq!(parse_port(Some("8080")), 8080);
    assert_eq!(parse_port(Some("70000")), 3000);
    assert!(parse_bool_flag(Some("1"), false));
    assert!(parse_bool_flag(Some("true"), false));
    assert!(!parse_bool_flag(Some("yes"), true));
    assert!(parse_bool_flag(None, true));
    assert_eq!(infill_url("http://localhost:8080"), "http://localhost:8080/infill");
}

#[test]
fn std_parse_agrees() {
    for s in ["0", "+0", "007", "65535", "65536", "4294967295", "4294967296", "-0", "", "+", " 1", "1 "] {
        assert_eq!(parse_decimal_u32(s), s.parse::<u32>().ok(), "{:?}", s);
        assert_eq!(parse_port(Some(s)), s.parse::<u16>().unwrap_or(3000), "{:?}", s);
    }
}


#[test]
fn bare_cursor_answer_falls_back() {
    let input = excerpt(&format!("fn main() {{{}}}", CURSOR_MARKER));
    let out = complete_at_cursor(&input, BARE_CURSOR_MARKER, false).unwrap();
    assert!(out.contains("Generated Rust code"));
    assert!(!out.contains(BARE_CURSOR_MARKER));
    let mixed = format!("{}{}", BARE_CURSOR_MARKER, CURSOR_MARKER);
    let out2 = complete_at_cursor(&input, &mixed, false).unwrap();
    assert!(out2.contains("Generated Rust code"));
    let with_text = complete_at_cursor(&input, &format!("a{}b", BARE_CURSOR_MARKER), false).unwrap();
    assert_eq!(with_text, excerpt("fn main() {ab}"));
}

#[test]
fn complete_at_cursor_reports_split_error() {
    assert_eq!(
        complete_at_cursor("no markers", "x", false),
        Err(ExtractError::MissingRegionStart)
    );
}

#[test]
fn strip_bare_marker() {
    assert_eq!(strip_cursor_markers(&format!("x{}y{}z", BARE_CURSOR_MARKER, CURSOR_MARKER)), "xyz");
}

#[test]
fn extract_error_messages() {
    assert_eq!(
        ExtractError::MissingRegionStart.message(),
        "EDITABLE_REGION_START_MARKER ('<|editable_region_start|>') not found"
    );
    assert_eq!(
        ExtractError::MissingRegionEnd.message(),
        "EDITABLE_REGION_END_MARKER ('<|editable_region_end|>') not found"
    );
    assert_eq!(
        ExtractError::EmptyRegion { start: 25, end: 7 }.message(),
        "Editable region is invalid or empty: start_offset (25) >= end_offset (7)"
    );
    assert_eq!(
        ExtractError::MissingCursor { region_len: 1030 }.message(),
        "CURSOR_MARKER ('<|user_cursor_is_here|>') not found within the isolated editable content slice of length 1030"
    );
}

#[test]
fn decimal_text_values() {
    assert_eq!(decimal_text(0), "0");
    assert_eq!(decimal_text(9), "9");
    assert_eq!(decimal_text(10), "10");
    assert_eq!(decimal_text(usize::MAX), usize::MAX.to_string());
    assert_eq!(parse_decimal_u32(&decimal_text(4294967295)), Some(4294967295));
}

#[test]
fn answer_after_generation_choices() {
    let a = answer_after_generation(Some("done".to_string()));
    assert_eq!(a.output_excerpt, "done");
    assert!(a.no_cache);
    let b = answer_after_generation(None);
    assert!(b.output_excerpt.contains("Generated function example"));
    assert!(!b.no_cache);
}

#[test]
fn debug_switch_changes_only_debug() {
    for q in ["", "fallback=tru", "force=", "x=1&fallback=true"] {
        let a = request_flags(q, false, false);
        let b = request_flags(&format!("{}&debug=true", q), false, false);
        assert_eq!(a.force_fallback, b.force_fallback);
        assert_eq!(a.force_completion, b.force_completion);
        assert!(b.force_debug && b.should_debug);
    }
}
