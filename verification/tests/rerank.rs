use kern::json::{JsonNumber, JsonValue};
use kern::retrieval::rerank::{parse_ranking, ranking_from_value, rerank_order};

#[test]
fn parses_clean_array() {
    assert_eq!(parse_ranking("[2,0,1]", 3), Some(vec![2, 0, 1]));
}

#[test]
fn tolerates_surrounding_prose() {
    assert_eq!(parse_ranking("Ranking: [1,0] done", 2), Some(vec![1, 0]));
}

#[test]
fn filters_out_of_range_indices() {
    assert_eq!(parse_ranking("[5,0]", 2), Some(vec![0]));
}

#[test]
fn negative_index_is_filtered_not_panic() {
    assert_eq!(parse_ranking("[-1,1]", 2), Some(vec![1]));
}

#[test]
fn no_brackets_is_none() {
    assert_eq!(parse_ranking("no ranking here", 3), None);
}

#[test]
fn empty_array_is_none() {
    assert_eq!(parse_ranking("[]", 3), None);
}

#[test]
fn whole_number_floats_accepted() {
    assert_eq!(parse_ranking("[1.0, 0.0, 2.0]", 3), Some(vec![1, 0, 2]));
}

#[test]
fn fractional_float_discards_ranking() {
    assert_eq!(parse_ranking("[1.5, 0]", 3), None);
}

#[test]
fn closing_bracket_before_opening_is_none() {
    assert_eq!(parse_ranking("] then [", 3), None);
}

#[test]
fn a_string_entry_discards_ranking() {
    assert_eq!(parse_ranking("[0, \"1\"]", 3), None);
}

#[test]
fn brackets_holding_no_json_are_none() {
    assert_eq!(parse_ranking("[not json]", 3), None);
}

#[test]
fn all_entries_out_of_pool_is_none() {
    assert_eq!(parse_ranking("[7, 9]", 3), None);
}

#[test]
fn ranking_from_a_parsed_array() {
    let v = Some(JsonValue::Array(vec![
        JsonValue::Number(JsonNumber::Unsigned(2)),
        JsonValue::Number(JsonNumber::Signed(-3)),
        JsonValue::Number(JsonNumber::Float(Some(1.0f64.to_bits()))),
        JsonValue::Number(JsonNumber::Unsigned(u64::MAX)),
    ]));
    assert_eq!(ranking_from_value(&v, 3), Some(vec![2, 1]));
}

#[test]
fn ranking_from_a_non_array_is_none() {
    assert_eq!(ranking_from_value(&Some(JsonValue::Null), 3), None);
    assert_eq!(ranking_from_value(&None, 3), None);
}

#[test]
fn ranking_from_a_fractional_float_is_none() {
    let v = Some(JsonValue::Array(vec![JsonValue::Number(JsonNumber::Float(Some(0.5f64.to_bits())))]));
    assert_eq!(ranking_from_value(&v, 3), None);
}

#[test]
fn rerank_order_follows_the_ranking_then_the_rest() {
    assert_eq!(rerank_order(&[2, 0, 1], &[false, false, false], true), vec![2, 0, 1]);
    assert_eq!(rerank_order(&[1], &[false, false, false], false), vec![1, 0, 2]);
    assert_eq!(rerank_order(&[1, 1, 9, 0], &[false, false], false), vec![1, 0], "repeats and out-of-head indices are skipped");
    assert_eq!(rerank_order(&[], &[false, false], true), vec![0, 1]);
}

#[test]
fn rerank_order_keeps_remote_candidates_below_local_ones() {
    // local_a, evil, local_b; the model asks for [1, 2, 0]
    assert_eq!(rerank_order(&[1, 2, 0], &[false, true, false], true), vec![2, 0, 1]);
    // without tiers the model's order stands
    assert_eq!(rerank_order(&[1, 2, 0], &[false, true, false], false), vec![1, 2, 0]);
    assert_eq!(rerank_order(&[0, 1], &[true, false], true), vec![1, 0]);
}
