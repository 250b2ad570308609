use ccusage_adapter_cursor::json::Json;
use ccusage_adapter_cursor::number::Number;
use ccusage_adapter_cursor::parser::{timestamp_from_number_value, CursorUsageRecord};
use ccusage_adapter_cursor::pricing::{
    calculate_cursor_cost, calculate_from_tokens, missing_cursor_pricing, pricing_candidates,
    CostMode, CursorCost,
};
use ccusage_adapter_cursor::usage::{RecordedCost, TokenUsageRaw};

fn record(cost_usd: Option<RecordedCost>) -> CursorUsageRecord {
    CursorUsageRecord {
        timestamp: timestamp_from_number_value(Some(&Json::Text(
            "2026-08-16T00:00:00.000Z".to_string(),
        )))
        .unwrap(),
        session_id: "sess".into(),
        message_id: "msg".into(),
        model: "cursor-grok-4.6-high-fast".into(),
        model_id: Some("grok-4.6".into()),
        usage: TokenUsageRaw {
            input_tokens: 1_000,
            output_tokens: 100,
            cache_creation_input_tokens: 0,
            cache_read_input_tokens: 0,
        },
        cost_usd,
        project_path: "Cursor".into(),
    }
}

fn quotes(models: &[String], priced: &str, price: f64) -> Vec<u64> {
    models
        .iter()
        .map(|model| if model == priced { price } else { 0.0 })
        .map(f64::to_bits)
        .collect()
}

#[test]
fn pricing_candidates_prefer_model_id_and_grok_build_family() {
    let candidates = pricing_candidates("cursor-grok-build-high-fast", Some("grok-build"));
    assert_eq!(candidates[0], "grok-build");
    assert!(candidates.contains(&"grok-build-0.1".to_string()));
    assert!(candidates.contains(&"cursor-grok-build-high-fast".to_string()));
    assert!(candidates.contains(&"grok-build-high-fast".to_string()));
}

#[test]
fn prices_grok_4_6_from_embedded_tables() {
    let cost = match calculate_cursor_cost(&record(None), CostMode::Calculate) {
        CursorCost::FromTokens(models) => {
            f64::from_bits(calculate_from_tokens(&quotes(&models, "grok-4.6", 0.0045)))
        }
        other => panic!("{other:?}"),
    };
    assert!(cost > 0.0, "grok-4.6 should resolve through model_id");
}

#[test]
fn candidates_come_in_the_documented_order() {
    assert_eq!(
        pricing_candidates("cursor-grok-build", Some(" grok-4.6 ")),
        [
            "grok-4.6",
            "xai/grok-4.6",
            "x-ai/grok-4.6",
            "cursor-grok-build",
            "cursor-grok",
            "grok-build",
            "xai/grok-build",
            "x-ai/grok-build",
            "grok-build-0.1",
            "xai/grok-build-0.1",
            "x-ai/grok-build-0.1",
        ]
    );
    assert_eq!(pricing_candidates("composer-2.5", None), ["composer-2.5"]);
    assert_eq!(
        pricing_candidates("grok-4-build", Some("")),
        ["grok-4-build", "grok-4", "xai/grok-4", "x-ai/grok-4"]
    );
    assert!(pricing_candidates("  ", None).is_empty());
    assert_eq!(pricing_candidates("-build", None), ["-build"]);
}

#[test]
fn candidates_are_distinct() {
    let candidates = pricing_candidates("grok-4.6", Some("grok-4.6"));
    assert_eq!(candidates, ["grok-4.6", "xai/grok-4.6", "x-ai/grok-4.6"]);
}

#[test]
fn cost_follows_the_mode() {
    let recorded = RecordedCost::Cents(Number::PosInt(12));
    assert!(matches!(
        calculate_cursor_cost(&record(None), CostMode::Display),
        CursorCost::Nothing
    ));
    match calculate_cursor_cost(&record(Some(recorded)), CostMode::Display) {
        CursorCost::Recorded(cost) => assert_eq!(cost, recorded),
        other => panic!("{other:?}"),
    }
    match calculate_cursor_cost(&record(Some(recorded)), CostMode::Auto) {
        CursorCost::Recorded(cost) => assert_eq!(cost, recorded),
        other => panic!("{other:?}"),
    }
    for (cost, mode) in [
        (None, CostMode::Auto),
        (None, CostMode::Calculate),
        (Some(recorded), CostMode::Calculate),
    ] {
        match calculate_cursor_cost(&record(cost), mode) {
            CursorCost::FromTokens(models) => assert_eq!(models[0], "grok-4.6"),
            other => panic!("{other:?}"),
        }
    }
}

#[test]
fn the_first_usable_price_counts() {
    let bits = |prices: &[f64]| -> Vec<u64> { prices.iter().map(|p| p.to_bits()).collect() };
    let cost = |prices: &[f64]| f64::from_bits(calculate_from_tokens(&bits(prices)));
    assert_eq!(cost(&[0.0, -1.0, f64::NAN, f64::INFINITY, 0.25, 9.0]), 0.25);
    assert_eq!(cost(&[5e-324, 1.0]), 5e-324);
    assert_eq!(cost(&[-0.0, 0.0]), 0.0);
    assert_eq!(cost(&[]), 0.0);
}

#[test]
fn missing_prices_are_checked_where_costs_are_calculated() {
    let recorded = Some(RecordedCost::Usd(Number::PosInt(1)));
    assert!(missing_cursor_pricing(&record(None), CostMode::Display).is_none());
    assert!(missing_cursor_pricing(&record(recorded), CostMode::Auto).is_none());
    let check = missing_cursor_pricing(&record(recorded), CostMode::Calculate).unwrap();
    assert_eq!(check.model, "cursor-grok-4.6-high-fast");
    assert_eq!(check.candidates[0], "grok-4.6");
    assert_eq!(check.tokens, 1_100);
    assert!(missing_cursor_pricing(&record(None), CostMode::Auto).is_some());
}
