use kern::ingest::split::{llm_split, paragraph_split, split};
use kern::llm::{
    host_of, is_local_ipv4, is_local_ollama, is_local_url, is_loopback_url, is_openai_compat,
    parse_ipv4, strip_think, wants_native, Endpoint,
};

#[test]
fn paragraph_split_single_and_multi() {
    assert_eq!(paragraph_split("one paragraph"), vec!["one paragraph".to_string()]);
    assert_eq!(paragraph_split("first\n\nsecond"), vec!["first".to_string(), "second".to_string()]);
    assert_eq!(paragraph_split("  a  \n\n\n\n  b  "), vec!["a".to_string(), "b".to_string()]);
}

#[test]
fn whitespace_or_empty_input_yields_no_chunks() {
    assert!(paragraph_split("").is_empty(), "empty -> no chunks");
    assert!(paragraph_split("   \n\n \t ").is_empty(), "whitespace-only -> no bogus chunk");
}

#[test]
fn split_uses_llm_statements_when_present() {
    let llm = |_p: &str| "stmt one\nstmt two".to_string();
    assert_eq!(split("raw", "", Some(&llm)), vec!["stmt one".to_string(), "stmt two".to_string()]);
}

#[test]
fn split_falls_back_to_paragraphs_when_llm_returns_empty() {
    let llm = |_p: &str| String::new();
    assert_eq!(
        split("para a\n\npara b", "", Some(&llm)),
        vec!["para a".to_string(), "para b".to_string()],
        "empty LLM response -> paragraph fallback"
    );
}

#[test]
fn split_without_llm_uses_paragraph_split() {
    assert_eq!(split("x\n\ny", "", None::<&fn(&str) -> String>), vec!["x".to_string(), "y".to_string()]);
}

#[test]
fn llm_split_folds_hint_into_the_prompt() {
    let seen = std::cell::RefCell::new(String::new());
    let llm = |p: &str| {
        *seen.borrow_mut() = p.to_string();
        "s".to_string()
    };
    let _ = llm_split("body", "rust code", &llm);
    assert!(seen.borrow().contains("describes rust code"), "hint is named in the prompt");
    let _ = llm_split("body", "", &llm);
    assert!(!seen.borrow().contains("describes"));
}

#[test]
fn every_chunk_is_trimmed_and_nonempty() {
    let llm = |_p: &str| "  one  \n\n   \n two\t".to_string();
    let chunks = split("ignored", "", Some(&llm));
    assert_eq!(chunks, vec!["one".to_string(), "two".to_string()]);
    for c in &chunks {
        assert_eq!(c.trim(), c);
        assert!(!c.is_empty());
    }
}

#[test]
fn strip_think_recovers_answer_after_leaked_reasoning() {
    assert_eq!(strip_think("plain answer"), "plain answer");
    assert_eq!(strip_think("<think>hmm</think>yes"), "yes");
    assert_eq!(strip_think("leaked reasoning</think>yes"), "yes");
    assert_eq!(strip_think("a</think>b</think>final"), "final");
    assert_eq!(strip_think("answer<think>unclosed trailing"), "answer");
    assert_eq!(strip_think("<think>only reasoning"), "");
}

#[test]
fn local_ollama_markers_match_loopback_and_default_port() {
    assert!(is_local_ollama("http://localhost"));
    assert!(is_local_ollama("http://127.0.0.1:9999"));
    assert!(is_local_ollama("http://ollama:11434"));
    assert!(!is_local_ollama("https://api.openai.com"));
    assert!(!is_local_ollama("http://notlocalhost.com"));
}

#[test]
fn is_local_url_accepts_local_hosts() {
    // loopback variants
    assert!(is_local_url("http://localhost"));
    assert!(is_local_url("http://127.0.0.1"));
    assert!(is_local_url("http://127.1.2.3:11434"));
    assert!(is_local_url("http://[::1]:8080"));
    // RFC1918
    assert!(is_local_url("http://10.0.0.1"));
    assert!(is_local_url("http://172.16.0.1"));
    assert!(is_local_url("http://172.27.176.1:11434")); // WSL2 gateway used by the LoCoMo run
    assert!(is_local_url("http://172.31.255.255"));
    assert!(is_local_url("http://192.168.1.1/embed"));
    // link-local
    assert!(is_local_url("http://169.254.0.1"));
    // ollama host / default port (reuses is_local_ollama)
    assert!(is_local_url("http://ollama:11434"));
    assert!(is_local_url("http://ollama"));
    assert!(is_local_url("http://anything:11434"));
}

#[test]
fn is_local_url_rejects_public_hosts() {
    assert!(!is_local_url("https://api.openai.com"));
    assert!(!is_local_url("http://example.com"));
    assert!(!is_local_url("http://203.0.113.5"));
    assert!(!is_local_url("https://1.2.3.4/v1"));
    assert!(!is_local_url("http://8.8.8.8"));
    // 172.32 is outside the RFC1918 /12, not local
    assert!(!is_local_url("http://172.32.0.1"));
}

#[test]
fn explicit_v1_suffix_forces_openai_compat_even_on_localhost() {
    assert!(wants_native("http://localhost:11434"));
    assert!(wants_native("http://localhost:11434/"));
    assert!(!wants_native("http://localhost:8000/v1"));
    assert!(!wants_native("http://127.0.0.1:8000/v1/"));
    assert!(!wants_native("https://api.openai.com/v1"));
}

#[test]
fn host_parsing_edges() {
    assert_eq!(host_of("http://user@host.example:80/x"), Some("user@host.example".to_string()));
    assert_eq!(host_of("https://[::1]:8080/p"), Some("[::1]".to_string()));
    assert_eq!(host_of("no-scheme"), None);
    assert_eq!(parse_ipv4("10.1.2.3"), Some([10, 1, 2, 3]));
    assert_eq!(parse_ipv4("256.1.2.3"), None);
    assert_eq!(parse_ipv4("1.2.3"), None);
    assert!(is_local_ipv4(&[192, 168, 0, 1]));
    assert!(!is_local_ipv4(&[192, 169, 0, 1]));
    assert!(is_loopback_url("http://127.9.9.9:1"));
    assert!(!is_loopback_url("http://10.0.0.1"));
    assert!(is_openai_compat("https://api.openai.com/v1"));
    assert!(!is_openai_compat("http://localhost:11434"));
    let e = Endpoint::new("http://localhost:11434", "m", "");
    assert_eq!(e.url, "http://localhost:11434");
}

use kern::llm::{complete_failure_line, is_transient, one_line_reason, should_retry_single, LlmError};

#[test]
fn permanent_client_errors_do_not_retry_single() {
    assert!(!should_retry_single(&LlmError::Api { status: 400, body: String::new() }));
    assert!(!should_retry_single(&LlmError::Api { status: 401, body: String::new() }));
    assert!(!should_retry_single(&LlmError::EmptyCompletion));
}

#[test]
fn transient_and_empty_batch_retry_single() {
    assert!(should_retry_single(&LlmError::Api { status: 429, body: String::new() }));
    assert!(should_retry_single(&LlmError::Api { status: 503, body: String::new() }));
    assert!(should_retry_single(&LlmError::EmptyEmbedding));
}

#[test]
fn transport_failures_are_transient_unless_a_client_status_came_back() {
    let http = |timeout, connect, status| LlmError::Http { timeout, connect, http_status: status, message: "x".into() };
    assert!(is_transient(&http(true, false, Some(400))));
    assert!(is_transient(&http(false, true, None)));
    assert!(is_transient(&http(false, false, None)));
    assert!(is_transient(&http(false, false, Some(502))));
    assert!(!is_transient(&http(false, false, Some(404))));
}

#[test]
fn failure_reason_is_one_bounded_line() {
    let e = LlmError::Api { status: 502, body: "<html>\n<body>bad gateway</body>".into() };
    assert_eq!(one_line_reason(&e), "API error (502): <html>");
    assert_eq!(complete_failure_line(&e), "transient: API error (502): <html>");
    let long = LlmError::Api { status: 400, body: "x".repeat(300) };
    let r = one_line_reason(&long);
    assert_eq!(r.chars().count(), 161);
    assert!(r.ends_with('…'));
    assert!(complete_failure_line(&long).starts_with("permanent: API error (400): xxx"));
    assert_eq!(one_line_reason(&LlmError::EmptyCompletion), "empty completion response");
}

use kern::llm::{normalize_url, plan_client};

#[test]
fn client_plan_falls_back_and_normalizes() {
    assert_eq!(normalize_url("http://localhost:8000/v1/"), "http://localhost:8000");
    assert_eq!(normalize_url("http://host//"), "http://host");
    assert_eq!(normalize_url("http://host/v1/v1"), "http://host/v1");
    let reason = Endpoint::new("http://localhost:11434/", "qwen", "k1");
    let embed = Endpoint::new("", "nomic", "");
    let p = plan_client(&reason, &embed);
    assert_eq!(p.reason_url, "http://localhost:11434");
    assert_eq!(p.embed_url, "http://localhost:11434");
    assert_eq!(p.embed_key, "k1");
    assert_eq!(p.embed_model, "nomic");
    assert!(p.reason_native && p.embed_native);
    let compat = plan_client(&Endpoint::new("https://api.openai.com/v1", "m", "sk"), &Endpoint::new("http://localhost:11434", "e", "ek"));
    assert_eq!(compat.reason_url, "https://api.openai.com");
    assert!(!compat.reason_native);
    assert!(compat.embed_native);
    assert_eq!(compat.embed_key, "ek");
}

#[test]
fn is_local_url_reads_the_host_not_the_text() {
    assert!(!is_local_url("http://localhost.evil.com"));
    assert!(!is_local_url("http://127.0.0.1.evil.com"));
    assert!(is_local_url("http://localhost:8080/v1"));
    assert!(is_local_url("http://[fe80::1:11434"), "the default-port heuristic answers before the host is read");
    assert!(!is_local_url("http://[fe80::1//localhost"), "an unreadable host is not a local one");
}

#[test]
fn failure_line_never_holds_a_line_break() {
    let errors = vec![
        LlmError::Api { status: 500, body: "\n\nfirst\nsecond\n".into() },
        LlmError::Http { timeout: false, connect: true, http_status: None, message: "a\r\nb".into() },
        LlmError::Api { status: 418, body: format!("{}\n{}", "y".repeat(200), "z") },
        LlmError::EmptyCompletion,
    ];
    for e in &errors {
        let line = complete_failure_line(e);
        assert!(!line.contains('\n'), "{line:?}");
    }
    assert_eq!(complete_failure_line(&LlmError::EmptyCompletion), "permanent: empty completion response");
}

use kern::llm::{chat_url, completion_of};

#[test]
fn chat_url_picks_the_api_path() {
    assert_eq!(chat_url("http://localhost:11434", true), "http://localhost:11434/api/chat");
    assert_eq!(chat_url("https://api.example.com", false), "https://api.example.com/v1/chat/completions");
}

#[test]
fn completion_strips_reasoning_and_refuses_empty() {
    assert_eq!(completion_of(Some("<think>hmm</think>\n[1]")).ok(), Some("[1]".to_string()));
    assert!(matches!(completion_of(Some("<think>only thinking</think>  ")), Err(LlmError::EmptyCompletion)));
    assert!(matches!(completion_of(Some("")), Err(LlmError::EmptyCompletion)));
    assert!(matches!(completion_of(None), Err(LlmError::EmptyCompletion)));
}
