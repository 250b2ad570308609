use ccusage_adapter_cursor::codec::{
    coerce_json_value, hex_decode, json_from_value, json_objects_from_bytes, parse_json,
    parse_json_or_hex,
};
use ccusage_adapter_cursor::json::{json_string, json_u64_keys, Json, Member};
use ccusage_adapter_cursor::number::Number;
use ccusage_adapter_cursor::parser::{
    model_from_value, record_from_inherited_payload, record_from_sdk_run, records_from_json_value,
    timestamp_from_number_value, timestamp_from_value, InheritedIdentity,
};
use ccusage_adapter_cursor::sdk_index::{
    collect_usage_messages, is_usage_message, records_from_sdk_index,
};
use ccusage_adapter_cursor::store::{
    records_from_store_payload, store_session_meta_from_value, StoreSessionMeta,
};
use ccusage_adapter_cursor::usage::{
    parse_usage_value, split_input_tokens, total_usage_tokens, RecordedCost, TokenUsageRaw,
};

fn json(text: &str) -> Json {
    json_from_value(serde_json::from_str(text).unwrap())
}

fn text_of(value: Option<&Json>) -> &str {
    match value {
        Some(Json::Text(text)) => text.as_str(),
        other => panic!("not a text: {other:?}"),
    }
}

fn count_of(value: Option<&Json>) -> u64 {
    match value {
        Some(Json::Number(Number::PosInt(count))) => *count,
        other => panic!("not a count: {other:?}"),
    }
}

#[test]
fn splits_inclusive_hook_input_like_cursor_staff_docs() {
    let parsed = parse_usage_value(&json(
        r#"{
            "input_tokens": 1180993,
            "output_tokens": 8146,
            "cache_read_tokens": 1007022,
            "cache_write_tokens": 173957
        }"#,
    ))
    .unwrap();
    assert_eq!(parsed.usage.input_tokens, 14);
    assert_eq!(parsed.usage.cache_read_input_tokens, 1_007_022);
    assert_eq!(parsed.usage.cache_creation_input_tokens, 173_957);
    assert_eq!(parsed.usage.output_tokens, 8_146);
}

#[test]
fn keeps_exclusive_sdk_input_when_total_matches_the_sum() {
    let parsed = parse_usage_value(&json(
        r#"{
            "inputTokens": 100,
            "outputTokens": 20,
            "cacheReadTokens": 40,
            "cacheWriteTokens": 10,
            "totalTokens": 170
        }"#,
    ))
    .unwrap();
    assert_eq!(parsed.usage.input_tokens, 100);
    assert_eq!(parsed.usage.cache_read_input_tokens, 40);
    assert_eq!(parsed.usage.cache_creation_input_tokens, 10);
}

#[test]
fn ignores_all_zero_usage() {
    assert!(parse_usage_value(&json(
        r#"{
            "inputTokens": 0,
            "outputTokens": 0,
            "cacheReadTokens": 0,
            "cacheWriteTokens": 0
        }"#
    ))
    .is_none());
}

#[test]
fn record_from_sdk_run_uses_agent_id_as_session() {
    let record = record_from_sdk_run(
        &json(
            r#"{
                "runId": "run-1",
                "agentId": "agent-abc",
                "model": { "id": "grok-4.6" },
                "usage": {
                    "inputTokens": 100,
                    "outputTokens": 20,
                    "cacheReadTokens": 0,
                    "cacheWriteTokens": 0,
                    "totalTokens": 120
                },
                "startedAt": 1750000000000
            }"#,
        ),
        "fallback",
        "/workspace",
    )
    .unwrap();
    assert_eq!(record.session_id, "agent-abc");
    assert_eq!(record.message_id, "run-1");
    assert_eq!(record.model, "grok-4.6");
    assert_eq!(record.usage.input_tokens, 100);
    assert_eq!(record.usage.output_tokens, 20);
    assert_eq!(record.project_path, "/workspace");
}

#[test]
fn record_from_hook_payload_uses_conversation_and_generation_ids() {
    let records = records_from_json_value(
        &json(
            r#"{
                "hook_event_name": "stop",
                "conversation_id": "conv-1",
                "generation_id": "gen-1",
                "model": "cursor-grok-4.6-high-fast",
                "model_id": "grok-4.6",
                "input_tokens": 140,
                "output_tokens": 20,
                "cache_read_tokens": 40,
                "cache_write_tokens": 10,
                "timestamp": 1750000000000
            }"#,
        ),
        "fallback",
        "Cursor",
    );
    assert_eq!(records.len(), 1);
    let record = &records[0];
    assert_eq!(record.session_id, "conv-1");
    assert_eq!(record.message_id, "gen-1");
    assert_eq!(record.model, "cursor-grok-4.6-high-fast");
    assert_eq!(record.model_id.as_deref(), Some("grok-4.6"));
    assert_eq!(record.usage.input_tokens, 90);
    assert_eq!(record.usage.cache_read_input_tokens, 40);
    assert_eq!(record.usage.cache_creation_input_tokens, 10);
}

#[test]
fn extracts_json_objects_from_protobuf_wrapped_bytes() {
    let mut bytes = vec![0x0a, 0x05];
    bytes.extend_from_slice(br#"{"role":"assistant","usage":{"inputTokens":1}}"#);
    bytes.extend_from_slice(&[0x00, 0x00]);
    let objects = json_objects_from_bytes(&bytes);
    assert_eq!(objects.len(), 1);
    assert_eq!(text_of(objects[0].get("role")), "assistant");
}

#[test]
fn nested_usage_inherits_parent_timestamp_and_model() {
    let records = records_from_json_value(
        &json(
            r#"{
                "createdAt": 1750000000000,
                "model": "grok-4.6",
                "conversation_id": "conv-nested",
                "message": {
                    "usage": {
                        "input_tokens": 50,
                        "output_tokens": 5,
                        "cache_read_tokens": 0,
                        "cache_write_tokens": 0
                    }
                }
            }"#,
        ),
        "fallback",
        "/workspace",
    );
    assert_eq!(records.len(), 1);
    assert_eq!(records[0].session_id, "conv-nested");
    assert_eq!(records[0].model, "grok-4.6");
    assert_eq!(records[0].usage.input_tokens, 50);
    assert_eq!(records[0].usage.output_tokens, 5);
}

#[test]
fn sdk_index_uses_run_events_when_runs_usage_is_empty() {
    let records = records_from_sdk_index(
        &[json(
            r#"{
                "run_id": "run-new",
                "agent_id": "agent-new",
                "model": { "id": "composer-2.5" },
                "started_at": 1750010000000
            }"#,
        )],
        &[json(
            r#"{
                "run_id": "run-new",
                "seq": 4,
                "created_at": 1750010000500,
                "payload_json": {
                    "type": "usage",
                    "agent_id": "agent-new",
                    "run_id": "run-new",
                    "usage": {
                        "inputTokens": 50,
                        "outputTokens": 5,
                        "cacheReadTokens": 0,
                        "cacheWriteTokens": 0,
                        "totalTokens": 55
                    }
                }
            }"#,
        )],
        "fallback",
        "my-app",
    );
    assert_eq!(records.len(), 1);
    assert_eq!(records[0].session_id, "agent-new");
    assert_eq!(records[0].model, "composer-2.5");
    assert_eq!(records[0].usage.input_tokens, 50);
    assert_eq!(records[0].usage.output_tokens, 5);
    assert_eq!(records[0].message_id, "run-new:4:0");
    assert_eq!(records[0].project_path, "my-app");
}

#[test]
fn sdk_index_keeps_separate_agents_without_double_counting_events() {
    let records = records_from_sdk_index(
        &[
            json(
                r#"{
                    "run_id": "run-a",
                    "agent_id": "agent-a",
                    "model": "grok-4.6",
                    "usage": {
                        "inputTokens": 100,
                        "outputTokens": 10,
                        "totalTokens": 110
                    },
                    "started_at": 1750000000000
                }"#,
            ),
            json(
                r#"{
                    "run_id": "run-b",
                    "agent_id": "agent-b",
                    "model": "grok-4.6",
                    "started_at": 1750000100000
                }"#,
            ),
        ],
        &[
            json(
                r#"{
                    "run_id": "run-a",
                    "seq": 1,
                    "created_at": 1750000000000,
                    "payload_json": {
                        "type": "usage",
                        "agent_id": "agent-a",
                        "run_id": "run-a",
                        "usage": {
                            "inputTokens": 100,
                            "outputTokens": 10,
                            "totalTokens": 110
                        }
                    }
                }"#,
            ),
            json(
                r#"{
                    "run_id": "run-b",
                    "seq": 1,
                    "created_at": 1750000100000,
                    "payload_json": {
                        "type": "usage",
                        "agent_id": "agent-b",
                        "run_id": "run-b",
                        "usage": {
                            "inputTokens": 20,
                            "outputTokens": 2,
                            "totalTokens": 22
                        }
                    }
                }"#,
            ),
        ],
        "fallback",
        "proj",
    );
    assert_eq!(records.len(), 2);
    let mut sessions: Vec<_> = records
        .iter()
        .map(|record| record.session_id.as_str())
        .collect();
    sessions.sort_unstable();
    assert_eq!(sessions, ["agent-a", "agent-b"]);
    let agent_a = records
        .iter()
        .find(|record| record.session_id == "agent-a")
        .unwrap();
    assert_eq!(agent_a.usage.input_tokens, 100);
    let agent_b = records
        .iter()
        .find(|record| record.session_id == "agent-b")
        .unwrap();
    assert_eq!(agent_b.usage.input_tokens, 20);
}

#[test]
fn sdk_index_falls_back_to_runs_usage_without_events() {
    let records = records_from_sdk_index(
        &[json(
            r#"{
                "runId": "run-1",
                "agentId": "agent-abc",
                "model": { "id": "grok-4.6" },
                "usage": {
                    "inputTokens": 100,
                    "outputTokens": 20,
                    "totalTokens": 120
                },
                "startedAt": 1750000000000
            }"#,
        )],
        &[],
        "fallback",
        "/workspace",
    );
    assert_eq!(records.len(), 1);
    assert_eq!(records[0].session_id, "agent-abc");
    assert_eq!(records[0].message_id, "run-1");
    assert_eq!(records[0].usage.input_tokens, 100);
}

#[test]
fn cli_store_hex_meta_pins_folder_uuid_and_reads_token_count() {
    let text = r#"{"agentId":"c5f09ff7-69d5-414a-a4c9-b8ac792420fd","lastUsedModel":"composer-2.5","createdAt":1750000000000}"#;
    let hex: String = text.bytes().map(|byte| format!("{byte:02x}")).collect();
    let meta = store_session_meta_from_value(&Json::Object(vec![
        Member {
            key: "key".to_string(),
            value: Json::Text("0".to_string()),
        },
        Member {
            key: "value".to_string(),
            value: Json::Text(hex),
        },
    ]))
    .unwrap();
    assert_eq!(
        meta.agent_id.as_deref(),
        Some("c5f09ff7-69d5-414a-a4c9-b8ac792420fd")
    );
    assert_eq!(meta.model.as_deref(), Some("composer-2.5"));

    let records = records_from_store_payload(
        &json(
            r#"{
                "role": "assistant",
                "agentId": "agent-should-not-win",
                "tokenCount": {
                    "inputTokens": 40,
                    "outputTokens": 8
                }
            }"#,
        ),
        "c5f09ff7-69d5-414a-a4c9-b8ac792420fd",
        "eea42053be10a3da86aa61bbf93e53bb",
        Some(&meta),
        true,
    );
    assert_eq!(records.len(), 1);
    assert_eq!(
        records[0].session_id,
        "c5f09ff7-69d5-414a-a4c9-b8ac792420fd"
    );
    assert_eq!(records[0].model, "composer-2.5");
    assert_eq!(records[0].usage.input_tokens, 40);
    assert_eq!(records[0].usage.output_tokens, 8);
    assert_eq!(records[0].project_path, "eea42053be10a3da86aa61bbf93e53bb");
}

#[test]
fn hex_decode_rejects_odd_length_and_accepts_json() {
    assert!(parse_json_or_hex("7b2261223a317d").is_some());
    assert!(parse_json_or_hex("abc").is_none());
    assert_eq!(
        count_of(parse_json_or_hex(r#"{"a":1}"#).unwrap().get("a")),
        1
    );
}

#[test]
fn inclusive_input_is_clamped_at_zero() {
    assert_eq!(split_input_tokens(10, 5, 30, 4, None), (0, 30, 4));
    assert_eq!(split_input_tokens(34, 5, 30, 4, None), (0, 30, 4));
    assert_eq!(split_input_tokens(35, 5, 30, 4, None), (1, 30, 4));
    assert_eq!(
        split_input_tokens(u64::MAX, 0, u64::MAX, u64::MAX, None),
        (0, u64::MAX, u64::MAX)
    );
}

#[test]
fn only_a_matching_total_makes_input_exclusive() {
    assert_eq!(split_input_tokens(100, 20, 40, 10, Some(170)), (100, 40, 10));
    assert_eq!(split_input_tokens(100, 20, 40, 10, Some(120)), (50, 40, 10));
    assert_eq!(split_input_tokens(100, 20, 40, 10, Some(150)), (50, 40, 10));
    assert_eq!(split_input_tokens(100, 20, 40, 10, Some(169)), (50, 40, 10));
    assert_eq!(
        split_input_tokens(u64::MAX, u64::MAX, 1, 1, Some(u64::MAX)),
        (u64::MAX - 2, 1, 1)
    );
}

#[test]
fn usage_fields_have_several_names() {
    for text in [
        r#"{"inputTokens":9,"outputTokens":2,"cacheReadTokens":3,"cacheWriteTokens":4}"#,
        r#"{"input_tokens":9,"output_tokens":2,"cache_read_tokens":3,"cache_write_tokens":4}"#,
        r#"{"prompt_tokens":9,"completion_tokens":2,"cache_read_input_tokens":3,"cache_write_input_tokens":4}"#,
        r#"{"inputTokens":9,"outputTokens":2,"cacheReadTokens":3,"cacheCreationTokens":4}"#,
        r#"{"inputTokens":9,"outputTokens":2,"cacheReadTokens":3,"cache_creation_input_tokens":4}"#,
        r#"{"inputTokens":9.9,"outputTokens":"?","output_tokens":2,"cacheReadTokens":3,"cacheWriteTokens":4,"reasoningTokens":7}"#,
    ] {
        let parsed = parse_usage_value(&json(text)).unwrap();
        assert_eq!(
            parsed.usage,
            TokenUsageRaw {
                input_tokens: 2,
                output_tokens: 2,
                cache_creation_input_tokens: 4,
                cache_read_input_tokens: 3,
            }
        );
        assert_eq!(parsed.cost_usd, None);
    }
}

#[test]
fn usage_needs_an_object_with_an_input_count() {
    assert!(parse_usage_value(&json(r#"{"outputTokens":5}"#)).is_none());
    assert!(parse_usage_value(&json(r#"[1]"#)).is_none());
    assert!(parse_usage_value(&Json::Null).is_none());
    assert!(parse_usage_value(&json(r#"{"inputTokens":0,"outputTokens":5}"#)).is_some());
    let negative = parse_usage_value(&json(r#"{"inputTokens":-7,"outputTokens":5}"#)).unwrap();
    assert_eq!(negative.usage.input_tokens, 0);
}

#[test]
fn recorded_cost_prefers_dollars_to_cents() {
    let both = parse_usage_value(&json(
        r#"{"inputTokens":1,"costUSD":0.25,"chargedCents":99}"#,
    ))
    .unwrap();
    assert_eq!(
        both.cost_usd,
        Some(RecordedCost::Usd(Number::Float(0.25f64.to_bits())))
    );
    let cents = parse_usage_value(&json(r#"{"inputTokens":1,"charged_cents":99}"#)).unwrap();
    assert_eq!(cents.cost_usd, Some(RecordedCost::Cents(Number::PosInt(99))));
}

#[test]
fn sdk_run_needs_usage_instant_and_model() {
    let usage = r#""usage":{"inputTokens":1}"#;
    let ok = format!(r#"{{"model":"m","startedAt":1750000000000,{usage}}}"#);
    let record = record_from_sdk_run(&json(&ok), "fallback", "p").unwrap();
    assert_eq!(record.session_id, "fallback");
    assert_eq!(record.message_id, "fallback");
    assert_eq!(record.model, "m");
    assert_eq!(record.model_id, None);
    assert_eq!(record.timestamp, 1_750_000_000_000);
    for text in [
        format!(r#"{{"model":"m",{usage}}}"#),
        format!(r#"{{"startedAt":1750000000000,{usage}}}"#),
        format!(r#"{{"model":"  ","startedAt":1750000000000,{usage}}}"#),
        r#"{"model":"m","startedAt":1750000000000}"#.to_string(),
        r#"{"model":"m","startedAt":1750000000000,"usage":{"inputTokens":0}}"#.to_string(),
    ] {
        assert!(record_from_sdk_run(&json(&text), "fallback", "p").is_none());
    }
    let under_json = r#"{"model":"m","startedAt":1750000000000,"usage_json":{"inputTokens":3}}"#;
    assert!(record_from_sdk_run(&json(under_json), "fallback", "p").is_some());
}

#[test]
fn model_is_a_text_or_an_object_with_an_id() {
    let (display, id) = model_from_value(Some(&json(r#""  grok-4.6 ""#)));
    assert_eq!(display.as_deref(), Some("grok-4.6"));
    assert_eq!(id, None);
    let (display, id) = model_from_value(Some(&json(r#"{"id":"composer-2.5"}"#)));
    assert_eq!(display.as_deref(), Some("composer-2.5"));
    assert_eq!(id.as_deref(), Some("composer-2.5"));
    assert_eq!(model_from_value(Some(&json("7"))), (None, None));
    assert_eq!(model_from_value(None), (None, None));
}

#[test]
fn instants_are_read_from_numbers_and_texts() {
    assert_eq!(
        timestamp_from_value(&json(r#"{"startedAt":1750000000}"#)),
        Some(1_750_000_000_000)
    );
    assert_eq!(
        timestamp_from_value(&json(r#"{"timestamp":"soon","created_at":1750000000000}"#)),
        Some(1_750_000_000_000)
    );
    assert_eq!(
        timestamp_from_value(&json(r#"{"updatedAt":"2025-06-15T15:06:40.250Z"}"#)),
        Some(1_750_000_000_250)
    );
    assert_eq!(timestamp_from_value(&json(r#"{"timestamp":12}"#)), None);
    assert_eq!(timestamp_from_value(&json(r#"{"timestamp":-1}"#)), None);
    assert_eq!(timestamp_from_value(&json(r#"{"other":1750000000}"#)), None);
    assert_eq!(timestamp_from_number_value(None), None);
    assert_eq!(
        timestamp_from_number_value(Some(&json("1750000000.5"))),
        Some(1_750_000_000_500)
    );
}

#[test]
fn payload_takes_what_it_lacks_from_what_it_inherits() {
    let inherited = InheritedIdentity {
        session: "outer".to_string(),
        pin_session: false,
        model: Some("label".to_string()),
        model_id: None,
        used_model: None,
        timestamp: Some(5),
        project_path: "p".to_string(),
    };
    let record =
        record_from_inherited_payload(&json(r#"{"tokenCount":{"inputTokens":4}}"#), &inherited)
            .unwrap();
    assert_eq!(record.session_id, "outer");
    assert_eq!(record.message_id, "outer:usage");
    assert_eq!(record.model, "label");
    assert_eq!(record.timestamp, 5);
    let own = record_from_inherited_payload(
        &json(r#"{"inputTokens":4,"requestId":"r","sessionId":"s","modelId":"id"}"#),
        &inherited,
    )
    .unwrap();
    assert_eq!(own.session_id, "s");
    assert_eq!(own.message_id, "r");
    assert_eq!(own.model, "id");
    assert_eq!(own.model_id.as_deref(), Some("id"));
    let nameless = InheritedIdentity {
        model: None,
        ..inherited
    };
    assert!(record_from_inherited_payload(&json(r#"{"inputTokens":4}"#), &nameless).is_none());
    let used = InheritedIdentity {
        used_model: Some("used".to_string()),
        ..nameless
    };
    let counts = json(r#"{"inputTokens":4}"#);
    assert_eq!(record_from_inherited_payload(&counts, &used).unwrap().model, "used");
    let by_id = InheritedIdentity {
        model_id: Some("inherited-id".to_string()),
        ..used
    };
    assert_eq!(record_from_inherited_payload(&counts, &by_id).unwrap().model, "inherited-id");
}

#[test]
fn nested_usage_is_labelled_by_the_hook_model() {
    let records = records_from_json_value(
        &json(
            r#"{"createdAt":1750000000000,"model":"cursor-grok-4.6-high-fast","model_id":"grok-4.6","message":{"usage":{"input_tokens":50,"output_tokens":5}}}"#,
        ),
        "fallback",
        "/workspace",
    );
    assert_eq!(records.len(), 1);
    assert_eq!(records[0].model, "cursor-grok-4.6-high-fast");
    assert_eq!(records[0].model_id.as_deref(), Some("grok-4.6"));
    let by_id = records_from_json_value(
        &json(
            r#"{"createdAt":1750000000000,"model_id":"grok-4.6","message":{"usage":{"input_tokens":50}}}"#,
        ),
        "fallback",
        "/workspace",
    );
    assert_eq!(by_id[0].model, "grok-4.6");
}

#[test]
fn nested_usage_is_labelled_by_its_model_id_before_the_last_used_model() {
    let label = |text: &str| {
        let records = records_from_json_value(&json(text), "fallback", "/workspace");
        assert_eq!(records.len(), 1);
        records[0].model.clone()
    };
    assert_eq!(
        label(
            r#"{"createdAt":1750000000000,"lastUsedModel":"composer-2.5","model_id":"grok-4.6","message":{"usage":{"input_tokens":50}}}"#
        ),
        "grok-4.6"
    );
    assert_eq!(
        label(
            r#"{"createdAt":1750000000000,"lastUsedModel":"composer-2.5","message":{"usage":{"input_tokens":50}}}"#
        ),
        "composer-2.5"
    );
    assert_eq!(
        label(
            r#"{"createdAt":1750000000000,"model":"cursor-grok-4.6","message":{"modelName":"composer-2.5","usage":{"input_tokens":50}}}"#
        ),
        "cursor-grok-4.6"
    );
}

#[test]
fn all_tokens_of_a_turn_are_added_up() {
    let usage = |count: u64| TokenUsageRaw {
        input_tokens: count,
        output_tokens: 2,
        cache_creation_input_tokens: 30,
        cache_read_input_tokens: 400,
    };
    assert_eq!(total_usage_tokens(usage(1)), 433);
    assert_eq!(total_usage_tokens(usage(u64::MAX)), u64::MAX as u128 + 432);
}

#[test]
fn records_are_found_at_every_depth_and_zero_counts_are_skipped() {
    let records = records_from_json_value(
        &json(
            r#"[
                {"timestamp":1750000000000,"model":"m","inputTokens":1},
                {"timestamp":1750000000001,"model":"m","deep":{"list":[{"tokenCount":{"inputTokens":2}}]}},
                {"timestamp":1750000000002,"model":"m","tokenCount":{"inputTokens":0,"outputTokens":0}}
            ]"#,
        ),
        "fallback",
        "p",
    );
    let counts: Vec<u64> = records
        .iter()
        .map(|record| record.usage.input_tokens)
        .collect();
    assert_eq!(counts, [1, 2]);
    assert!(records.iter().all(|record| record.project_path == "p"));
    assert!(records.iter().all(|record| record.session_id == "fallback"));
}

#[test]
fn nested_model_name_of_the_provider_is_inherited() {
    let records = records_from_json_value(
        &json(
            r#"{
                "createdAt": 1750000000,
                "providerOptions": {"cursor": {"modelName": " composer-2.5 "}},
                "content": [{"usage": {"inputTokens": 3}}]
            }"#,
        ),
        "fallback",
        "p",
    );
    assert_eq!(records.len(), 1);
    assert_eq!(records[0].model, "composer-2.5");
}

#[test]
fn several_objects_are_found_among_other_bytes() {
    let mut bytes = b"xx{".to_vec();
    bytes.extend_from_slice(br#"{"a":1}"#);
    bytes.extend_from_slice(&[0xff, b'{', 0x00]);
    bytes.extend_from_slice(br#"{"b":{"c":2}} {"d":3}"#);
    let objects = json_objects_from_bytes(&bytes);
    assert_eq!(objects.len(), 3);
    assert_eq!(count_of(objects[0].get("a")), 1);
    assert!(objects[1].get("b").unwrap().is_object());
    assert_eq!(count_of(objects[2].get("d")), 3);
    assert!(json_objects_from_bytes(b"no braces").is_empty());
    assert!(json_objects_from_bytes(b"").is_empty());
}

#[test]
fn hex_digits_are_read_in_pairs() {
    assert_eq!(hex_decode("00ffA5"), Some(vec![0x00, 0xff, 0xa5]));
    assert_eq!(hex_decode(""), None);
    assert_eq!(hex_decode("abc"), None);
    assert_eq!(hex_decode("zz"), None);
    assert_eq!(hex_decode("é"), None);
    assert_eq!(hex_decode("+7"), Some(vec![7]));
}

#[test]
fn bytes_in_hex_read_back() {
    for bytes in [vec![0u8], vec![1, 2, 254, 255], b"{\"a\":1}".to_vec()] {
        let hex: String = bytes.iter().map(|byte| format!("{byte:02x}")).collect();
        let upper: String = bytes.iter().map(|byte| format!("{byte:02X}")).collect();
        assert_eq!(hex_decode(&upper), Some(bytes.clone()));
        assert_eq!(hex_decode(&hex), Some(bytes));
    }
}

#[test]
fn hex_that_is_not_json_in_utf8_is_refused() {
    assert!(parse_json_or_hex("fffe").is_none());
    assert!(parse_json_or_hex("6162").is_some());
    assert!(parse_json_or_hex("616263").is_some());
    assert!(parse_json_or_hex("7b7b").is_none());
    assert_eq!(
        count_of(parse_json_or_hex(" 7b2261223a357d\n").unwrap().get("a")),
        5
    );
}

#[test]
fn values_that_spell_no_json_stay() {
    match coerce_json_value(&Json::Text("plain words".to_string())) {
        Json::Text(text) => assert_eq!(text, "plain words"),
        other => panic!("{other:?}"),
    }
    match coerce_json_value(&Json::Text("[true]".to_string())) {
        Json::Array(items) => assert!(matches!(items[0], Json::Bool(true))),
        other => panic!("{other:?}"),
    }
    assert!(matches!(coerce_json_value(&Json::Null), Json::Null));
}

#[test]
fn json_values_keep_their_parts() {
    let value = json(r#"{"z":[null,true,-3,18446744073709551615,1.5],"a":"t"}"#);
    assert_eq!(text_of(value.get("a")), "t");
    match value.get("z") {
        Some(Json::Array(items)) => {
            assert!(matches!(items[0], Json::Null));
            assert!(matches!(items[1], Json::Bool(true)));
            assert!(matches!(items[2], Json::Number(Number::NegInt(-3))));
            assert!(matches!(items[3], Json::Number(Number::PosInt(u64::MAX))));
            match items[4] {
                Json::Number(Number::Float(bits)) => assert_eq!(f64::from_bits(bits), 1.5),
                ref other => panic!("{other:?}"),
            }
        }
        other => panic!("{other:?}"),
    }
    assert!(parse_json("{").is_none());
    assert!(parse_json("{} {}").is_none());
    assert!(parse_json("{}").is_some());
}

#[test]
fn keys_are_tried_in_order() {
    let value = json(r#"{"a":"  ","b":" x ","c":"y","n":"1","m":4}"#);
    assert_eq!(json_string(&value, &["a", "b", "c"]).as_deref(), Some("x"));
    assert_eq!(json_string(&value, &["a", "m"]), None);
    assert_eq!(json_u64_keys(&value, &["n", "m"]), Some(4));
    assert_eq!(json_string(&Json::Null, &["a"]), None);
}

#[test]
fn usage_messages_are_found_inside_texts() {
    let inner = r#"{\"type\":\"usage\",\"usage\":{\"inputTokens\":2}}"#;
    let event = json(&format!(r#"{{"payload":"{inner}","other":[{{"type":"text"}}]}}"#));
    let mut found = Vec::new();
    collect_usage_messages(&event, &mut found);
    assert_eq!(found.len(), 1);
    assert!(is_usage_message(&found[0]));
    assert!(!is_usage_message(&json(r#"{"type":"usage"}"#)));
    assert!(!is_usage_message(&json(r#"{"type":"text","usage":{}}"#)));
}

#[test]
fn usage_events_win_over_the_usage_of_their_run() {
    let runs = [
        json(
            r#"{"runId":"a","model":"m","startedAt":1750000000,"usage":{"inputTokens":100}}"#,
        ),
        json(
            r#"{"runId":"b","model":"m","startedAt":1750000001,"usage":{"inputTokens":7}}"#,
        ),
        json(r#"{"model":"m","startedAt":1750000002,"usage":{"inputTokens":8}}"#),
    ];
    let events = [
        json(
            r#"{"runId":"a","sequence":2,"m":[{"type":"usage","usage":{"inputTokens":40}},{"type":"usage","usage":{"inputTokens":60}}]}"#,
        ),
        json(r#"{"runId":"b","m":{"type":"usage","usage":{"inputTokens":0}}}"#),
    ];
    let records = records_from_sdk_index(&runs, &events, "fallback", "p");
    let found: Vec<(&str, u64)> = records
        .iter()
        .map(|record| (record.message_id.as_str(), record.usage.input_tokens))
        .collect();
    assert_eq!(
        found,
        [("a:2:0", 40), ("a:2:1", 60), ("b", 7), ("fallback", 8)]
    );
    assert_eq!(records[0].timestamp, 1_750_000_000_000);
    assert_eq!(records[0].session_id, "fallback");
}

#[test]
fn store_session_comes_from_meta_unless_pinned() {
    let meta = StoreSessionMeta {
        agent_id: Some("agent".to_string()),
        model: Some("composer-2.5".to_string()),
        timestamp: Some(1_750_000_000_000),
    };
    let blob = json(r#"{"tokenCount":{"inputTokens":4}}"#);
    let free = records_from_store_payload(&blob, "folder", "p", Some(&meta), false);
    assert_eq!(free[0].session_id, "agent");
    assert_eq!(free[0].timestamp, 1_750_000_000_000);
    let pinned = records_from_store_payload(&blob, "folder", "p", Some(&meta), true);
    assert_eq!(pinned[0].session_id, "folder");
    assert_eq!(pinned[0].usage.input_tokens, free[0].usage.input_tokens);
    assert_eq!(pinned[0].timestamp, free[0].timestamp);
    assert!(records_from_store_payload(&blob, "folder", "p", None, false).is_empty());
}

#[test]
fn store_meta_needs_a_known_field() {
    assert!(store_session_meta_from_value(&json(r#"{"value":"{}"}"#)).is_none());
    assert!(store_session_meta_from_value(&json(r#"{"x":1}"#)).is_none());
    assert!(store_session_meta_from_value(&Json::Null).is_none());
    let plain =
        store_session_meta_from_value(&json(r#"{"agentId":"a","value":"not json"}"#)).unwrap();
    assert_eq!(plain.agent_id.as_deref(), Some("a"));
    let nested =
        store_session_meta_from_value(&json(r#"{"value":{"model":"m"},"agentId":"a"}"#)).unwrap();
    assert_eq!(nested.agent_id, None);
    assert_eq!(nested.model.as_deref(), Some("m"));
}
