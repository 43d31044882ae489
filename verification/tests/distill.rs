use kern::ingest::distill::{distill, distill_dated, kind_list, parse_claims, split_turns, DEFAULT_KINDS};
use kern::ingest::intake::{claims_of_text, Text};
use kern::time::parse_rfc3339;
use std::time::SystemTime;

fn now() -> SystemTime {
    std::time::UNIX_EPOCH
}

fn stub(json: &'static str) -> impl Fn(&str) -> String {
    move |_q: &str| json.to_string()
}

#[test]
fn extracts_claims_and_maps_kind() {
    let llm = stub(
        r#"[{"text":"User prefers tabs","kind":"preference"},{"text":"kern owns the graph","kind":"code-fact"}]"#,
    );
    let claims = distill("some conversation", &[], &llm, now()).expect("some");
    assert_eq!(claims.len(), 2);
    assert_eq!(claims[0].text, "User prefers tabs");
    assert_eq!(claims[0].kind, "preference");
    assert_eq!(claims[1].kind, "code-fact");
}

#[test]
fn procedural_kind_maps_through() {
    let llm = stub(r#"[{"text":"Always run cargo test before committing","kind":"procedural"}]"#);
    let claims = distill("c", &[], &llm, now()).expect("some");
    assert_eq!(claims.len(), 1);
    assert_eq!(claims[0].kind, "procedural");
    assert!(DEFAULT_KINDS.contains(&"procedural"));
}

#[test]
fn unknown_kind_falls_back_to_fact() {
    let llm = stub(r#"[{"text":"x","kind":"banana"}]"#);
    let claims = distill("c", &[], &llm, now()).expect("some");
    assert_eq!(claims[0].kind, "fact");
}

#[test]
fn parse_claims_records_turn_provenance() {
    let llm = stub(r#"[{"text":"the key is in vault X","kind":"fact","turns":[1,3]}]"#);
    let claims = distill("turn one\n\nturn two\n\nturn three", &[], &llm, now()).expect("some");
    assert_eq!(claims.len(), 1);
    assert_eq!(claims[0].turns, vec![1, 3], "cited turn numbers round-trip");
}

#[test]
fn turns_absent_or_malformed_leaves_empty() {
    let no_turns = stub(r#"[{"text":"x","kind":"fact"}]"#);
    assert!(distill("c", &[], &no_turns, now()).expect("some")[0].turns.is_empty());
    // floats accepted, zeros/negatives dropped — degrades to empty, never panics
    let messy = stub(r#"[{"text":"y","kind":"fact","turns":[2.0,0,"oops"]}]"#);
    assert_eq!(distill("c", &[], &messy, now()).expect("some")[0].turns, vec![2]);
}

#[test]
fn split_turns_breaks_on_blank_lines() {
    assert_eq!(split_turns("a\n\nb\n\nc"), vec!["a", "b", "c"]);
    assert_eq!(split_turns("one block"), vec!["one block"]);
    assert_eq!(split_turns("\r\na\r\n\r\nb"), vec!["a", "b"], "CRLF normalized");
    assert!(split_turns("\n\n\n").is_empty());
}

#[test]
fn registered_kind_is_accepted_and_offered_to_the_llm() {
    let seen = std::sync::Mutex::new(String::new());
    let llm = |p: &str| {
        *seen.lock().unwrap() = p.to_string();
        r#"[{"text":"finding X","kind":"audit-finding"}]"#.to_string()
    };
    let extra = vec!["audit-finding".to_string()];
    let claims = distill("c", &extra, &llm, now()).expect("some");
    assert_eq!(claims[0].kind, "audit-finding");
    assert!(seen.lock().unwrap().contains("audit-finding"), "registered kind is listed in the prompt");
}

#[test]
fn kind_list_dedups_registered_defaults() {
    let extra = vec!["fact".to_string(), "custom".to_string()];
    let list = kind_list(&extra);
    assert_eq!(list.matches("fact").count(), 2, "fact + code-fact only");
    assert!(list.ends_with(", custom"));
}

#[test]
fn prose_reply_signals_retry_not_archive() {
    let llm = stub("I could not find anything useful, sorry!");
    assert!(
        distill("c", &[], &llm, now()).is_none(),
        "a prose reply with no JSON array is a format failure — retry, never archive"
    );
}

#[test]
fn prose_reply_carrying_knowledge_is_not_lost() {
    // A weak model that answers in prose instead of JSON must not cause the
    // delta to be archived having stored nothing.
    let llm = stub("The user prefers tabs, and they decided to deploy on Fridays.");
    assert!(
        distill("a real conversation", &[], &llm, now()).is_none(),
        "non-JSON reply carrying real knowledge signals retry, so nothing is silently lost"
    );
}

#[test]
fn empty_conversation_skips_llm() {
    let llm = stub(r#"[{"text":"should not appear","kind":"fact"}]"#);
    assert!(distill("   \n  ", &[], &llm, now()).expect("some").is_empty());
}

#[test]
fn empty_llm_response_signals_retry() {
    let llm = stub("");
    assert!(distill("a real conversation worth keeping", &[], &llm, now()).is_none());
}

#[test]
fn whitespace_llm_response_signals_retry() {
    let llm = stub("   \n\t ");
    assert!(distill("a real conversation", &[], &llm, now()).is_none());
}

#[test]
fn genuine_empty_array_is_some_empty() {
    let llm = stub("[]");
    assert_eq!(distill("a real conversation", &[], &llm, now()), Some(Vec::new()));
}

#[test]
fn tolerates_prose_around_json() {
    let llm = stub("Here you go:\n[{\"text\":\"a\",\"kind\":\"fact\"}]\nHope that helps");
    let claims = distill("c", &[], &llm, now()).expect("some");
    assert_eq!(claims.len(), 1);
    assert_eq!(claims[0].text, "a");
}

#[test]
fn valid_from_hint_is_parsed_when_present_and_ignored_when_garbage() {
    let good = stub(r#"[{"text":"we moved to spaces","kind":"decision","valid_from":"2026-03-01T00:00:00Z"}]"#);
    let claims = distill("c", &[], &good, now()).expect("some");
    assert_eq!(claims.len(), 1);
    assert!(claims[0].valid_from.is_some(), "a valid ISO valid_from is parsed");

    let garbage = stub(r#"[{"text":"x","kind":"fact","valid_from":"since March"}]"#);
    assert_eq!(
        distill("c", &[], &garbage, now()).expect("some")[0].valid_from,
        None,
        "an unparseable valid_from is ignored, not fatal"
    );

    let absent = stub(r#"[{"text":"y","kind":"fact"}]"#);
    assert_eq!(distill("c", &[], &absent, now()).expect("some")[0].valid_from, None);
}

#[test]
fn absent_kind_falls_back_to_fact() {
    let llm = stub(r#"[{"text":"x"}]"#);
    let claims = distill("c", &[], &llm, now()).expect("some");
    assert_eq!(claims.len(), 1);
    assert_eq!(claims[0].kind, "fact");
}

#[test]
fn empty_or_missing_text_is_skipped() {
    let llm = stub(r#"[{"text":"","kind":"fact"},{"kind":"fact"},{"text":"keep","kind":"fact"}]"#);
    let claims = distill("c", &[], &llm, now()).expect("some");
    assert_eq!(claims.len(), 1);
    assert_eq!(claims[0].text, "keep");
}

#[test]
fn single_nested_array_is_unwrapped() {
    let llm = stub(r#"[[{"text":"a","kind":"fact"}]]"#);
    let claims = distill("c", &[], &llm, now()).expect("some");
    assert_eq!(claims.len(), 1);
    assert_eq!(claims[0].text, "a");
}

#[test]
fn multiple_sibling_arrays_signal_retry() {
    let two_siblings = stub(r#"[{"text":"a","kind":"fact"}] [{"text":"b","kind":"fact"}]"#);
    assert!(
        distill("c", &[], &two_siblings, now()).is_none(),
        "sibling arrays span to invalid JSON — a format failure, so retry not archive",
    );
}

#[test]
fn len2_array_of_arrays_parses_to_empty() {
    // Valid JSON array, just the wrong shape: it parsed, so it archives as a
    // genuine no-claims result rather than retrying forever.
    let array_of_arrays = stub(r#"[[{"text":"a","kind":"fact"}],[{"text":"b","kind":"fact"}]]"#);
    assert!(
        distill("c", &[], &array_of_arrays, now()).expect("some").is_empty(),
        "a len-2 array-of-arrays is neither unwrapped nor merged",
    );
}

#[test]
fn distill_prompt_injects_current_date_for_relative_resolution() {
    let captured = std::sync::Mutex::new(String::new());
    let llm = |p: &str| {
        *captured.lock().unwrap() = p.to_string();
        r#"[{"text":"x","kind":"fact"}]"#.to_string()
    };
    let now = parse_rfc3339("2026-07-22T00:00:00").unwrap();
    let _ = distill("some conversation about last Tuesday", &[], &llm, now);
    let prompt = captured.into_inner().unwrap();
    assert!(prompt.contains("2026-07-22"), "prompt must name today for relative-date resolution: {prompt}");
}

#[test]
fn distill_dated_marks_turns_in_the_prompt() {
    let captured = std::sync::Mutex::new(String::new());
    let llm = |p: &str| {
        *captured.lock().unwrap() = p.to_string();
        "[]".to_string()
    };
    let got = distill_dated("first\n\nsecond", &[], &llm, "2025-01-02");
    assert_eq!(got, Some(Vec::new()));
    let prompt = captured.into_inner().unwrap();
    assert!(prompt.contains("[1] first\n\n[2] second"));
    assert!(prompt.contains("today, which is 2025-01-02."));
    assert!(prompt.contains("<one of: preference, decision, project, fact, code-fact, reference, procedural>"));
}

#[test]
fn parse_claims_reads_the_span_between_the_outer_brackets() {
    let got = parse_claims("noise [{\"text\":\" t \",\"kind\":\" fact \"}] tail", &[]).unwrap();
    assert_eq!(got.len(), 1);
    assert_eq!(got[0].text, "t");
    assert_eq!(got[0].kind, "fact");
    assert!(parse_claims("] before [", &[]).is_none());
    assert!(parse_claims("no brackets", &[]).is_none());
}

#[test]
fn claims_of_text_tags_the_stem_and_skips_binary() {
    let llm = stub(r#"[{"text":"a","kind":"fact"}]"#);
    let (stem, claims) = claims_of_text(Text::Content("talk".to_string()), "s1", &[], &llm, now()).unwrap();
    assert_eq!(stem, "s1");
    assert_eq!(claims.len(), 1);
    assert!(claims_of_text(Text::Binary, "s1", &[], &llm, now()).is_none());
    let prose = stub("nothing here");
    assert!(claims_of_text(Text::Content("talk".to_string()), "s1", &[], &prose, now()).is_none());
}

#[test]
fn distill_numbers_turns_from_one() {
    let captured = std::sync::Mutex::new(Vec::<String>::new());
    let llm = |p: &str| {
        captured.lock().unwrap().push(p.to_string());
        "[]".to_string()
    };
    let got = distill("turn one\n\nturn two", &[], &llm, now());
    assert_eq!(got, Some(Vec::new()));
    let prompts = captured.into_inner().unwrap();
    assert_eq!(prompts.len(), 1, "the model is asked exactly once");
    assert!(prompts[0].contains("[1] turn one\n\n[2] turn two"), "{}", prompts[0]);
}

#[test]
fn parse_claims_drops_a_fractional_turn() {
    let got = parse_claims(r#"[{"text":"x","kind":"fact","turns":[2.5,3]}]"#, &[]);
    assert_eq!(
        got,
        Some(vec![kern::ingest::distill::Claim {
            text: "x".to_string(),
            kind: "fact".to_string(),
            valid_from: None,
            turns: vec![3],
        }])
    );
}

#[test]
fn parse_claims_takes_huge_and_negative_whole_turns_as_dropped() {
    let got = parse_claims(r#"[{"text":"x","kind":"fact","turns":[-2.0,-4,1e300,4.0]}]"#, &[]).unwrap();
    assert_eq!(got[0].turns.last(), Some(&4));
    assert!(!got[0].turns.contains(&0));
}
