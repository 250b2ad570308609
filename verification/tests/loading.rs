use std::path::{Component, Path};

use ccusage_adapter_cursor::discovery::{CursorDbKind, CursorNdjsonKind};
use ccusage_adapter_cursor::entry::{record_to_loaded_entry, LoadedEntry};
use ccusage_adapter_cursor::json::Json;
use ccusage_adapter_cursor::loader::{
    dedupe_entries, load_database, load_entries, load_ndjson, DbContents, NdjsonContents, Sources,
    Table,
};
use ccusage_adapter_cursor::number::Number;
use ccusage_adapter_cursor::parser::CursorUsageRecord;
use ccusage_adapter_cursor::paths::CursorError;
use ccusage_adapter_cursor::pricing::{calculate_from_tokens, CostMode, CursorCost};
use ccusage_adapter_cursor::source_path::{Part, SourcePath};
use ccusage_adapter_cursor::table::{
    cell_json, is_safe_ident, row_object, table_names, Cell, Column, Row,
};
use ccusage_adapter_cursor::usage::TokenUsageRaw;

fn source_path(text: &str) -> SourcePath {
    let parts = Path::new(text)
        .components()
        .map(|component| match component {
            Component::Prefix(prefix) => {
                Part::Prefix(prefix.as_os_str().as_encoded_bytes().to_vec())
            }
            Component::RootDir => Part::Root,
            Component::CurDir => Part::Current,
            Component::ParentDir => Part::Parent,
            Component::Normal(name) => Part::Normal(name.as_encoded_bytes().to_vec()),
        })
        .collect();
    SourcePath { parts }
}

fn read_cell(statement: &sqlite::Statement<'_>, index: usize) -> Cell {
    match statement.column_type(index).unwrap() {
        sqlite::Type::Null => Cell::Null,
        sqlite::Type::Integer => Cell::Integer(statement.read::<i64, _>(index).unwrap()),
        sqlite::Type::Float => Cell::Float(statement.read::<f64, _>(index).unwrap().to_bits()),
        sqlite::Type::String => Cell::Text(statement.read::<String, _>(index).unwrap()),
        sqlite::Type::Binary => Cell::Binary(statement.read::<Vec<u8>, _>(index).unwrap()),
    }
}

fn read_table(db: &sqlite::Connection, name: &str) -> Table {
    let mut statement = db.prepare(format!("SELECT * FROM {name}")).unwrap();
    let names = statement.column_names().to_vec();
    let mut rows = Vec::new();
    while let sqlite::State::Row = statement.next().unwrap() {
        let columns = names
            .iter()
            .enumerate()
            .map(|(index, name)| Column {
                name: name.clone(),
                cell: read_cell(&statement, index),
            })
            .collect();
        rows.push(Row { columns });
    }
    Table {
        name: name.to_string(),
        rows,
    }
}

fn runs_db(path: &str, usage_json: &str) -> DbContents {
    let db = sqlite::open(":memory:").unwrap();
    db.execute(
        "CREATE TABLE runs (runId TEXT, agentId TEXT, model TEXT, usage TEXT, startedAt INTEGER)",
    )
    .unwrap();
    let mut statement = db
        .prepare(
            "INSERT INTO runs (runId, agentId, model, usage, startedAt) VALUES (?1, ?2, ?3, ?4, ?5)",
        )
        .unwrap();
    statement.bind((1, "run-1")).unwrap();
    statement.bind((2, "agent-abc")).unwrap();
    statement.bind((3, "grok-4.6")).unwrap();
    statement.bind((4, usage_json)).unwrap();
    statement.bind((5, 1_750_000_000_000i64)).unwrap();
    statement.next().unwrap();
    DbContents {
        path: source_path(path),
        kind: CursorDbKind::Index,
        tables: Some(vec![read_table(&db, "runs")]),
    }
}

fn store_db(path: &str, blob: &[u8], extra_zero: bool) -> DbContents {
    let db = sqlite::open(":memory:").unwrap();
    db.execute("CREATE TABLE blobs (id TEXT, data BLOB)")
        .unwrap();
    let mut statement = db
        .prepare("INSERT INTO blobs (id, data) VALUES (?1, ?2)")
        .unwrap();
    statement.bind((1, "blob-1")).unwrap();
    statement
        .bind((2, sqlite::Value::Binary(blob.to_vec())))
        .unwrap();
    statement.next().unwrap();
    if extra_zero {
        let mut zero = db
            .prepare("INSERT INTO blobs (id, data) VALUES (?1, ?2)")
            .unwrap();
        zero.bind((1, "blob-zero")).unwrap();
        zero.bind((
            2,
            sqlite::Value::Binary(
                br#"{"timestamp":1750000001000,"model":"grok-4.6","usage":{"inputTokens":0,"outputTokens":0}}"#
                    .to_vec(),
            ),
        ))
        .unwrap();
        zero.next().unwrap();
    }
    DbContents {
        path: source_path(path),
        kind: CursorDbKind::Store,
        tables: Some(vec![read_table(&db, "blobs")]),
    }
}

fn lines(path: &str, text: &str) -> NdjsonContents {
    NdjsonContents {
        path: source_path(path),
        kind: if path.ends_with("/run_events.ndjson") {
            CursorNdjsonKind::Events
        } else {
            CursorNdjsonKind::Runs
        },
        text: Some(text.to_string()),
    }
}

fn load(dbs: Vec<DbContents>, ndjson: Vec<NdjsonContents>, mode: CostMode) -> Vec<LoadedEntry> {
    load_entries(
        Ok(Sources { dbs, ndjson }),
        mode,
        &jiff::tz::TimeZone::UTC,
    )
    .unwrap()
}

fn message_ids(entries: &[LoadedEntry]) -> Vec<&str> {
    entries
        .iter()
        .map(|entry| entry.data.message.id.as_deref().unwrap())
        .collect()
}

#[test]
fn loads_sdk_index_runs_with_exclusive_totals() {
    let db = runs_db(
        "/fixture/projects/my-app/sdk-agent-store/hash1/index.db",
        r#"{"inputTokens":100,"outputTokens":20,"cacheReadTokens":40,"cacheWriteTokens":10,"totalTokens":170}"#,
    );
    let entries = load(vec![db], Vec::new(), CostMode::Auto);
    assert_eq!(entries.len(), 1);
    assert_eq!(entries[0].session_id, "agent-abc");
    assert_eq!(entries[0].model.as_deref(), Some("grok-4.6"));
    assert_eq!(entries[0].data.message.usage.input_tokens, 100);
    assert_eq!(entries[0].data.message.usage.cache_read_input_tokens, 40);
    assert_eq!(
        entries[0].data.message.usage.cache_creation_input_tokens,
        10
    );
    assert_eq!(entries[0].data.message.usage.output_tokens, 20);
    assert_eq!(entries[0].project_path, "my-app");
    assert_eq!(entries[0].date.as_deref(), Some("2025-06-15"));
    let cost = match &entries[0].cost {
        CursorCost::FromTokens(models) => {
            let quotes: Vec<u64> = models
                .iter()
                .map(|model| if model == "grok-4.6" { 0.001f64 } else { 0.0 })
                .map(f64::to_bits)
                .collect();
            f64::from_bits(calculate_from_tokens(&quotes))
        }
        other => panic!("{other:?}"),
    };
    assert!(cost > 0.0);
}

#[test]
fn loads_store_blob_usage_and_skips_zero_token_rows() {
    let mut blob = vec![0x0a, 0x05];
    blob.extend_from_slice(
        br#"{"timestamp":1750000000000,"model":"cursor-grok-4.6-high-fast","model_id":"grok-4.6","conversation_id":"conv-store","generation_id":"gen-1","input_tokens":140,"output_tokens":20,"cache_read_tokens":40,"cache_write_tokens":10}"#,
    );
    let db = store_db("/fixture/chats/my-app/sess-store/store.db", &blob, true);
    let entries = load(vec![db], Vec::new(), CostMode::Calculate);
    assert_eq!(entries.len(), 1);
    assert_eq!(entries[0].session_id, "conv-store");
    assert_eq!(entries[0].data.message.id.as_deref(), Some("gen-1"));
    assert_eq!(entries[0].data.message.usage.input_tokens, 90);
    assert_eq!(entries[0].data.message.usage.cache_read_input_tokens, 40);
    assert_eq!(entries[0].project_path, "my-app");
}

#[test]
fn loads_ndjson_runs_and_dedupes_matching_index_rows() {
    let usage = r#"{"inputTokens":80,"outputTokens":8,"cacheReadTokens":0,"cacheWriteTokens":0,"totalTokens":88}"#;
    let db = runs_db(
        "/fixture/projects/api/sdk-agent-store/hash2/index.db",
        usage,
    );
    let file = lines(
        "/fixture/projects/api/sdk-agent-store/hash2/runs.ndjson",
        &(format!(
            r#"{{"runId":"run-1","agentId":"agent-abc","model":"grok-4.6","usage":{usage},"startedAt":1750000000000}}"#
        ) + "\n"),
    );
    let entries = load(vec![db], vec![file], CostMode::Auto);
    assert_eq!(entries.len(), 1);
    assert_eq!(entries[0].data.message.usage.input_tokens, 80);
}

#[test]
fn keeps_usage_when_a_sibling_database_is_corrupt() {
    let bad = DbContents {
        path: source_path("/fixture/chats/ws/bad/store.db"),
        kind: CursorDbKind::Store,
        tables: None,
    };
    let good = runs_db(
        "/fixture/projects/ok/sdk-agent-store/h/index.db",
        r#"{"inputTokens":11,"outputTokens":2,"totalTokens":13}"#,
    );
    let entries = load(vec![bad, good], Vec::new(), CostMode::Auto);
    assert_eq!(entries.len(), 1);
    assert_eq!(entries[0].data.message.usage.input_tokens, 11);
}

#[test]
fn sorts_entries_by_timestamp_across_sources() {
    let file = lines(
        "/fixture/projects/api/sdk-agent-store/h/runs.ndjson",
        r#"{"runId":"late","agentId":"sess","model":"grok-4.6","usage":{"inputTokens":2,"outputTokens":1,"totalTokens":3},"startedAt":1750100000000}
{"runId":"early","agentId":"sess","model":"grok-4.6","usage":{"inputTokens":1,"outputTokens":1,"totalTokens":2},"startedAt":1750000000000}
"#,
    );
    let entries = load(Vec::new(), vec![file], CostMode::Auto);
    assert_eq!(entries.len(), 2);
    assert_eq!(entries[0].data.message.id.as_deref(), Some("early"));
    assert_eq!(entries[1].data.message.id.as_deref(), Some("late"));
}

#[test]
fn entry_carries_identity_and_instant() {
    let db = runs_db(
        "/fixture/projects/my-app/sdk-agent-store/hash1/index.db",
        r#"{"inputTokens":1,"costUSD":0.5}"#,
    );
    let zone = jiff::tz::TimeZone::fixed(jiff::tz::Offset::constant(10));
    let entries = load_database(&db, &zone, CostMode::Display);
    assert_eq!(entries.len(), 1);
    let entry = &entries[0];
    assert_eq!(entry.date.as_deref(), Some("2025-06-16"));
    assert_eq!(entry.timestamp, 1_750_000_000_000);
    assert_eq!(entry.project, "cursor");
    assert_eq!(
        entry.data.timestamp.as_deref(),
        Some("2025-06-15T15:06:40.000Z")
    );
    assert_eq!(entry.data.session_id.as_deref(), Some("agent-abc"));
    assert_eq!(entry.data.request_id.as_deref(), Some("run-1"));
    assert_eq!(entry.data.message.model.as_deref(), Some("grok-4.6"));
    assert!(matches!(entry.cost, CursorCost::Recorded(_)));
    assert!(entry.missing_pricing.is_none());
    assert!(entry.credits.is_none());
    assert_eq!(entry.extra_total_tokens, 0);
}

#[test]
fn instants_beyond_the_calendar_have_no_date() {
    let file = lines(
        "/fixture/runs.ndjson",
        r#"{"model":"m","usage":{"inputTokens":1},"startedAt":9e18}"#,
    );
    let entries = load_ndjson(&file, &jiff::tz::TimeZone::UTC, CostMode::Auto);
    assert_eq!(entries.len(), 1);
    assert_eq!(entries[0].timestamp, 9_000_000_000_000_000_000);
    assert_eq!(entries[0].date, None);
    assert_eq!(entries[0].data.timestamp, None);
}

#[test]
fn the_calendar_has_a_first_and_a_last_instant() {
    let record = |timestamp: i64| CursorUsageRecord {
        timestamp,
        session_id: "s".to_string(),
        message_id: "m".to_string(),
        model: "grok-4.6".to_string(),
        model_id: None,
        usage: TokenUsageRaw {
            input_tokens: 1,
            output_tokens: 0,
            cache_creation_input_tokens: 0,
            cache_read_input_tokens: 0,
        },
        cost_usd: None,
        project_path: "p".to_string(),
    };
    let zone = jiff::tz::TimeZone::UTC;
    let entry =
        |timestamp: i64| record_to_loaded_entry(record(timestamp), &zone, CostMode::Auto);
    for (timestamp, lies_inside) in [
        (-377_705_023_201_001, false),
        (-377_705_023_201_000, true),
        (0, true),
        (253_402_207_200_000, true),
        (253_402_207_200_001, false),
        (i64::MIN, false),
        (i64::MAX, false),
    ] {
        assert_eq!(entry(timestamp).date.is_some(), lies_inside);
        assert_eq!(entry(timestamp).data.timestamp.is_some(), lies_inside);
    }
    assert_eq!(entry(0).date.as_deref(), Some("1970-01-01"));
    assert_eq!(
        entry(-1).data.timestamp.as_deref(),
        Some("1969-12-31T23:59:59.999Z")
    );
}

#[test]
fn home_error_is_handed_on() {
    let loaded = load_entries(
        Err(CursorError::HomeNotSet),
        CostMode::Auto,
        &jiff::tz::TimeZone::UTC,
    );
    assert!(matches!(loaded, Err(CursorError::HomeNotSet)));
}

#[test]
fn blank_and_broken_lines_are_passed_over() {
    let file = lines(
        "/fixture/acp-sessions/sess-2/runs.ndjson",
        "\r\n   \nnot json\n{\"runId\":\"a\",\"model\":\"m\",\"usage\":{\"inputTokens\":1},\"startedAt\":1750000000}\r\n{\"runId\":\"b\"",
    );
    let entries = load_ndjson(&file, &jiff::tz::TimeZone::UTC, CostMode::Auto);
    assert_eq!(message_ids(&entries), ["a"]);
    assert_eq!(entries[0].session_id, "sess-2");
    assert_eq!(entries[0].project_path, "acp");
    let unreadable = NdjsonContents {
        path: source_path("/fixture/runs.ndjson"),
        kind: CursorNdjsonKind::Runs,
        text: None,
    };
    assert!(load_ndjson(&unreadable, &jiff::tz::TimeZone::UTC, CostMode::Auto).is_empty());
}

#[test]
fn the_first_entry_of_a_turn_stays() {
    let line = |id: &str, agent: &str, model: &str, input: u64| {
        format!(
            r#"{{"runId":"{id}","agentId":"{agent}","model":"{model}","usage":{{"inputTokens":{input}}},"startedAt":1750000000000}}"#
        )
    };
    let text = [
        line("r", "s", "m", 1),
        line("r", "s", "m", 2),
        line("r", "s", "n", 3),
        line("r", "t", "m", 4),
        line("q", "s", "m", 5),
        line("r", "s", "m", 6),
    ]
    .join("\n");
    let entries = load(
        Vec::new(),
        vec![lines("/fixture/runs.ndjson", &text)],
        CostMode::Auto,
    );
    let counts: Vec<u64> = entries
        .iter()
        .map(|entry| entry.data.message.usage.input_tokens)
        .collect();
    assert_eq!(counts, [1, 3, 4, 5]);
    let again = dedupe_entries(entries);
    assert_eq!(again.len(), 4);
    let mut nameless = again;
    for entry in &mut nameless {
        entry.data.message.id = None;
    }
    assert_eq!(dedupe_entries(nameless).len(), 4);
}

#[test]
fn databases_come_before_lines_at_one_instant() {
    let usage = r#"{"inputTokens":3}"#;
    let db = runs_db("/fixture/projects/p/sdk-agent-store/h/index.db", usage);
    let file = lines(
        "/fixture/projects/p/sdk-agent-store/h/runs.ndjson",
        r#"{"runId":"run-0","model":"m","usage":{"inputTokens":1},"startedAt":1750000000000}"#,
    );
    let entries = load(vec![db], vec![file], CostMode::Auto);
    assert_eq!(message_ids(&entries), ["run-1", "run-0"]);
}

#[test]
fn catalog_reads_only_runs_and_stores_read_all_tables() {
    let row = |id: &str| Row {
        columns: vec![
            Column {
                name: "runId".to_string(),
                cell: Cell::Text(id.to_string()),
            },
            Column {
                name: "model".to_string(),
                cell: Cell::Text("m".to_string()),
            },
            Column {
                name: "usage".to_string(),
                cell: Cell::Text(r#"{"inputTokens":1}"#.to_string()),
            },
            Column {
                name: "startedAt".to_string(),
                cell: Cell::Float(1_750_000_000.5f64.to_bits()),
            },
        ],
    };
    let table = |name: &str, id: &str| Table {
        name: name.to_string(),
        rows: vec![row(id)],
    };
    let contents = |kind: CursorDbKind, with_runs: bool| {
        let mut tables = vec![table("agents", "a"), table("bad name", "b")];
        if with_runs {
            tables.push(table("runs", "c"));
        }
        DbContents {
            path: source_path("/fixture/x/index.db"),
            kind,
            tables: Some(tables),
        }
    };
    let loaded = |kind: CursorDbKind, with_runs: bool| {
        load_database(
            &contents(kind, with_runs),
            &jiff::tz::TimeZone::UTC,
            CostMode::Auto,
        )
    };
    assert_eq!(message_ids(&loaded(CursorDbKind::Index, true)), ["c"]);
    assert_eq!(message_ids(&loaded(CursorDbKind::Index, false)), ["a"]);
    assert_eq!(message_ids(&loaded(CursorDbKind::Store, true)), ["a", "c"]);
    assert_eq!(
        loaded(CursorDbKind::Store, true)[0].timestamp,
        1_750_000_000_500
    );
}

fn text_row(cells: &[(&str, &str)]) -> Row {
    Row {
        columns: cells
            .iter()
            .map(|(name, text)| Column {
                name: name.to_string(),
                cell: Cell::Text(text.to_string()),
            })
            .collect(),
    }
}

fn catalog(path: &str, runs: Vec<Row>, events: Vec<Row>) -> DbContents {
    DbContents {
        path: source_path(path),
        kind: CursorDbKind::Index,
        tables: Some(vec![
            Table {
                name: "run_events".to_string(),
                rows: events,
            },
            Table {
                name: "runs".to_string(),
                rows: runs,
            },
        ]),
    }
}

fn usage_event(run: &str, seq: &str, input: u64) -> Row {
    let payload = format!(
        r#"{{"type":"usage","usage":{{"inputTokens":{input},"outputTokens":5}}}}"#
    );
    text_row(&[("run_id", run), ("seq", seq), ("payload_json", &payload)])
}

#[test]
fn catalog_with_tokens_only_on_the_event_stream_is_loaded() {
    let run = text_row(&[
        ("run_id", "R"),
        ("agent_id", "A"),
        ("model", r#"{"id":"composer-2.5"}"#),
        ("started_at", "1750010000000"),
    ]);
    let db = catalog(
        "/fixture/projects/p/sdk-agent-store/h/index.db",
        vec![run],
        vec![usage_event("R", "4", 50)],
    );
    let entries = load_database(&db, &jiff::tz::TimeZone::UTC, CostMode::Auto);
    assert_eq!(message_ids(&entries), ["R:4:0"]);
    assert_eq!(entries[0].data.message.usage.input_tokens, 50);
    assert_eq!(entries[0].data.message.usage.output_tokens, 5);
    assert_eq!(entries[0].session_id, "A");
    assert_eq!(entries[0].model.as_deref(), Some("composer-2.5"));
    assert_eq!(entries[0].timestamp, 1_750_010_000_000);
    assert_eq!(entries[0].project_path, "p");
}

#[test]
fn usage_events_of_a_catalog_win_over_its_runs() {
    let run = |id: &str, input: u64| {
        let usage = format!(r#"{{"inputTokens":{input}}}"#);
        text_row(&[
            ("run_id", id),
            ("agent_id", "A"),
            ("model", "m"),
            ("usage", &usage),
            ("started_at", "1750010000000"),
        ])
    };
    let db = catalog(
        "/fixture/projects/p/sdk-agent-store/h/index.db",
        vec![run("a", 100), run("b", 7)],
        vec![usage_event("a", "1", 40), usage_event("a", "2", 60)],
    );
    let entries = load_database(&db, &jiff::tz::TimeZone::UTC, CostMode::Auto);
    assert_eq!(message_ids(&entries), ["a:1:0", "a:2:0", "b"]);
    let counts: Vec<u64> = entries
        .iter()
        .map(|entry| entry.data.message.usage.input_tokens)
        .collect();
    assert_eq!(counts, [40, 60, 7]);
}

#[test]
fn event_log_is_combined_with_the_runs_of_its_folder() {
    let runs = r#"{"runId":"a","agentId":"A","model":"m","usage":{"inputTokens":9},"startedAt":1750000000}
{"runId":"b","agentId":"B","model":"m","usage":{"inputTokens":8},"startedAt":1750000001}"#;
    let events = r#"{"runId":"a","seq":1,"payload":{"type":"usage","usage":{"inputTokens":4}}}
{"runId":"a","seq":2,"payload":{"type":"usage","usage":{"inputTokens":5}}}"#;
    let folder = "/fixture/projects/p/sdk-agent-store";
    let runs_file = |hash: &str| lines(&format!("{folder}/{hash}/runs.ndjson"), runs);
    let events_file = |hash: &str| lines(&format!("{folder}/{hash}/run_events.ndjson"), events);
    let together = load(
        Vec::new(),
        vec![events_file("h"), runs_file("h")],
        CostMode::Auto,
    );
    assert_eq!(message_ids(&together), ["a:1:0", "a:2:0", "b"]);
    assert_eq!(together[0].session_id, "A");
    let apart = load(
        Vec::new(),
        vec![events_file("g"), runs_file("h")],
        CostMode::Auto,
    );
    assert_eq!(message_ids(&apart), ["a", "b"]);
    let alone = r#"{"runId":"z","seq":3,"timestamp":1750000002,"payload":{"type":"usage","model":"m","usage":{"inputTokens":6}}}"#;
    let log = load(
        Vec::new(),
        vec![lines(&format!("{folder}/h/run_events.ndjson"), alone)],
        CostMode::Auto,
    );
    assert_eq!(message_ids(&log), ["z:3:0"]);
    assert_eq!(log[0].session_id, "h");
}

#[test]
fn lines_beside_a_catalog_share_its_events() {
    let run = text_row(&[
        ("runId", "a"),
        ("agentId", "A"),
        ("model", "m"),
        ("usage", r#"{"inputTokens":9}"#),
        ("startedAt", "1750000000"),
    ]);
    let path = "/fixture/projects/p/sdk-agent-store/h";
    let same_run = r#"{"runId":"a","agentId":"A","model":"m","usage":{"inputTokens":9},"startedAt":1750000000}
{"runId":"b","agentId":"B","model":"m","usage":{"inputTokens":8},"startedAt":1750000001}"#;
    let with_events = load(
        vec![catalog(
            &format!("{path}/index.db"),
            vec![run],
            vec![usage_event("a", "1", 4)],
        )],
        vec![lines(&format!("{path}/runs.ndjson"), same_run)],
        CostMode::Auto,
    );
    assert_eq!(message_ids(&with_events), ["a:1:0", "b"]);
    let bare = text_row(&[
        ("runId", "a"),
        ("agentId", "A"),
        ("model", "m"),
        ("startedAt", "1750000000"),
    ]);
    let log = r#"{"runId":"a","seq":7,"payload":{"type":"usage","usage":{"inputTokens":4}}}"#;
    let with_log = load(
        vec![catalog(&format!("{path}/index.db"), vec![bare], Vec::new())],
        vec![lines(&format!("{path}/run_events.ndjson"), log)],
        CostMode::Auto,
    );
    assert_eq!(message_ids(&with_log), ["a:7:0"]);
    assert_eq!(with_log[0].session_id, "A");
}

fn run_row(id: &str, agent: &str, input: u64) -> Row {
    let usage = format!(r#"{{"inputTokens":{input}}}"#);
    text_row(&[
        ("runId", id),
        ("agentId", agent),
        ("model", "m"),
        ("usage", &usage),
        ("startedAt", "1750000000"),
    ])
}

fn input_counts(entries: &[LoadedEntry]) -> Vec<u64> {
    entries
        .iter()
        .map(|entry| entry.data.message.usage.input_tokens)
        .collect()
}

#[test]
fn lines_of_one_folder_come_after_the_rows_of_the_next() {
    let store = "/fixture/projects/p/sdk-agent-store";
    let line = r#"{"runId":"line","agentId":"A","model":"m","usage":{"inputTokens":1},"startedAt":1750000000}"#;
    let entries = load(
        vec![
            catalog(&format!("{store}/a/index.db"), Vec::new(), Vec::new()),
            catalog(
                &format!("{store}/b/index.db"),
                vec![run_row("row", "B", 2)],
                Vec::new(),
            ),
        ],
        vec![lines(&format!("{store}/a/runs.ndjson"), line)],
        CostMode::Auto,
    );
    assert_eq!(message_ids(&entries), ["row", "line"]);
}

#[test]
fn a_row_of_a_later_folder_wins_over_a_line() {
    let store = "/fixture/projects/p/sdk-agent-store";
    let line = r#"{"runId":"r","agentId":"A","model":"m","usage":{"inputTokens":1},"startedAt":1750000000}"#;
    let entries = load(
        vec![
            catalog(&format!("{store}/a/index.db"), Vec::new(), Vec::new()),
            catalog(
                &format!("{store}/b/index.db"),
                vec![run_row("r", "A", 2)],
                Vec::new(),
            ),
        ],
        vec![lines(&format!("{store}/a/runs.ndjson"), line)],
        CostMode::Auto,
    );
    assert_eq!(message_ids(&entries), ["r"]);
    assert_eq!(input_counts(&entries), [2]);
}

#[test]
fn log_events_come_at_the_place_of_the_log_and_cover_rows_and_lines() {
    let store = "/fixture/projects/p/sdk-agent-store";
    let line = r#"{"runId":"x","agentId":"L","model":"other","usage":{"inputTokens":1},"startedAt":1750000000}
{"runId":"z","agentId":"A","model":"m","usage":{"inputTokens":3},"startedAt":1750000000}"#;
    let log = r#"{"runId":"x","seq":1,"payload":{"type":"usage","usage":{"inputTokens":4}}}"#;
    let sources = |with_log: bool| {
        let mut files = vec![lines(&format!("{store}/a/runs.ndjson"), line)];
        if with_log {
            files.insert(0, lines(&format!("{store}/a/run_events.ndjson"), log));
        }
        load(
            vec![
                catalog(
                    &format!("{store}/a/index.db"),
                    vec![run_row("x", "A", 9), run_row("y", "A", 8)],
                    Vec::new(),
                ),
                catalog(
                    &format!("{store}/b/index.db"),
                    vec![run_row("x", "B", 7)],
                    Vec::new(),
                ),
            ],
            files,
            CostMode::Auto,
        )
    };
    let entries = sources(true);
    assert_eq!(message_ids(&entries), ["y", "x", "x:1:0", "z"]);
    assert_eq!(input_counts(&entries), [8, 7, 4, 3]);
    assert_eq!(entries[2].session_id, "A");
    assert_eq!(entries[2].model.as_deref(), Some("m"));
    let without = sources(false);
    assert_eq!(message_ids(&without), ["x", "y", "x", "x", "z"]);
    assert_eq!(input_counts(&without), [9, 8, 7, 1, 3]);
}

#[test]
fn joined_lines_are_read_one_by_one() {
    let one = r#"{"runId":"a","agentId":"A","model":"m","usage":{"inputTokens":1},"startedAt":1750000000}"#;
    let other = r#"{"runId":"b","agentId":"A","model":"m","usage":{"inputTokens":2},"startedAt":1750000000}"#;
    let read = |text: &str| {
        let file = lines("/fixture/runs.ndjson", text);
        input_counts(&load_ndjson(&file, &jiff::tz::TimeZone::UTC, CostMode::Auto))
    };
    let mut apart = read(one);
    apart.extend(read(other));
    assert_eq!(apart, [1, 2]);
    assert_eq!(read(&format!("{one}\n{other}")), apart);
}

#[test]
fn lines_without_events_are_read_as_any_tree() {
    let text = r#"[{"timestamp":1750000000,"model":"m","generation_id":"g","inputTokens":3}]
{"conversation_id":"c","runId":"r","model":"m","usage":{"inputTokens":2},"startedAt":1750000001}"#;
    let entries = load_ndjson(
        &lines("/fixture/runs.ndjson", text),
        &jiff::tz::TimeZone::UTC,
        CostMode::Auto,
    );
    assert_eq!(message_ids(&entries), ["g", "r"]);
    assert_eq!(entries[1].session_id, "c");
}

#[test]
fn tables_to_read_are_chosen_by_name() {
    let names = |list: &[&str]| -> Vec<String> { list.iter().map(|n| n.to_string()).collect() };
    let all = names(&["agents", "runs", "run_events", "x; DROP", "1st", ""]);
    assert_eq!(
        table_names(CursorDbKind::Index, &all),
        ["runs", "run_events"]
    );
    let safe = table_names(CursorDbKind::Store, &all);
    assert_eq!(safe, ["agents", "runs", "run_events"]);
    assert_eq!(table_names(CursorDbKind::Store, &safe), safe);
    assert_eq!(
        table_names(CursorDbKind::Index, &names(&["agents", "b c"])),
        ["agents"]
    );
}

#[test]
fn safe_names_are_letters_digits_and_underscores() {
    for name in ["runs", "_x", "Run_Events2", "a"] {
        assert!(is_safe_ident(name), "{name}");
    }
    for name in ["", "2x", "a-b", "a b", "é", "x\"", "a;"] {
        assert!(!is_safe_ident(name), "{name}");
    }
}

#[test]
fn cells_become_json_values() {
    assert!(cell_json(&Cell::Null).is_none());
    assert!(matches!(
        cell_json(&Cell::Integer(5)),
        Some(Json::Number(Number::PosInt(5)))
    ));
    assert!(matches!(
        cell_json(&Cell::Integer(i64::MIN)),
        Some(Json::Number(Number::NegInt(i64::MIN)))
    ));
    match cell_json(&Cell::Float(2.5f64.to_bits())) {
        Some(Json::Number(Number::Float(bits))) => assert_eq!(f64::from_bits(bits), 2.5),
        other => panic!("{other:?}"),
    }
    assert!(matches!(
        cell_json(&Cell::Float(f64::INFINITY.to_bits())),
        Some(Json::Null)
    ));
    assert!(matches!(
        cell_json(&Cell::Text("[1]".to_string())),
        Some(Json::Array(_))
    ));
    match cell_json(&Cell::Text("plain".to_string())) {
        Some(Json::Text(text)) => assert_eq!(text, "plain"),
        other => panic!("{other:?}"),
    }
    assert!(matches!(
        cell_json(&Cell::Binary(b"{\"a\":1}".to_vec())),
        Some(Json::Object(_))
    ));
    assert!(matches!(
        cell_json(&Cell::Binary(b"\x01{\"a\":1}".to_vec())),
        Some(Json::Object(_))
    ));
    match cell_json(&Cell::Binary(b"\x01{\"a\":1}\x02{\"b\":2}".to_vec())) {
        Some(Json::Array(items)) => assert_eq!(items.len(), 2),
        other => panic!("{other:?}"),
    }
    assert!(cell_json(&Cell::Binary(b"\x01\xff".to_vec())).is_none());
}

#[test]
fn rows_become_objects_in_name_order() {
    let column = |name: &str, cell: Cell| Column {
        name: name.to_string(),
        cell,
    };
    let row = Row {
        columns: vec![
            column("b", Cell::Integer(1)),
            column("a", Cell::Integer(2)),
            column("n", Cell::Null),
            column("b", Cell::Integer(3)),
        ],
    };
    let members = row_object(&row);
    let keys: Vec<&str> = members.iter().map(|member| member.key.as_str()).collect();
    assert_eq!(keys, ["a", "b"]);
    assert!(matches!(
        members[1].value,
        Json::Number(Number::PosInt(3))
    ));
    assert!(row_object(&Row {
        columns: vec![column("x", Cell::Null)]
    })
    .is_empty());
}
