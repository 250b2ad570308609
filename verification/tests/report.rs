use ccusage_adapter_cursor::agent_report::{
    agent_summary_json, first_column, period_key, report_sort_key, sort_report_rows,
    summary_period, AgentReportKind, SortOrder, UsageSummary,
};
use ccusage_adapter_cursor::json::{Json, Member};
use ccusage_adapter_cursor::number::Number;

fn session_row(session_id: &str, last_activity: Option<&str>) -> UsageSummary {
    UsageSummary {
        date: None,
        month: None,
        week: None,
        session_id: Some(session_id.to_string()),
        project_path: None,
        last_activity: last_activity.map(str::to_string),
        first_activity: None,
        input_tokens: 1,
        output_tokens: 1,
        cache_creation_tokens: 0,
        cache_read_tokens: 0,
        extra_total_tokens: 0,
        total_cost: 0.0f64.to_bits(),
        credits: None,
        message_count: None,
        models_used: Vec::new(),
        model_breakdowns: Vec::new(),
        project: None,
        versions: None,
    }
}

fn sessions(rows: &[UsageSummary]) -> Vec<&str> {
    rows.iter()
        .map(|row| row.session_id.as_deref().unwrap())
        .collect()
}

fn members(value: &Json) -> &[Member] {
    match value {
        Json::Object(members) => members,
        other => panic!("{other:?}"),
    }
}

fn names(value: &Json) -> Vec<&str> {
    members(value)
        .iter()
        .map(|member| member.key.as_str())
        .collect()
}

#[test]
fn session_sort_key_uses_last_activity_instead_of_session_id() {
    let row = session_row("zzz-session", Some("2026-01-02T12:34:56.000Z"));

    assert_eq!(
        report_sort_key(&row, AgentReportKind::Session),
        "2026-01-02T12:34:56.000Z"
    );
    assert_eq!(summary_period(&row), "zzz-session");
}

#[test]
fn session_sort_key_falls_back_to_session_id_without_last_activity() {
    let row = session_row("session-a", None);

    assert_eq!(report_sort_key(&row, AgentReportKind::Session), "session-a");
}

#[test]
fn daily_sort_key_keeps_the_date_period() {
    let mut row = session_row("session-a", Some("2026-01-02T12:34:56.000Z"));
    row.date = Some("2026-01-01".to_string());

    assert_eq!(report_sort_key(&row, AgentReportKind::Daily), "2026-01-01");
}

#[test]
fn blank_last_activity_falls_back_to_the_session_id() {
    let row = session_row("session-a", Some(""));
    assert_eq!(report_sort_key(&row, AgentReportKind::Session), "session-a");
}

#[test]
fn period_is_date_week_month_or_session() {
    let mut row = session_row("s", None);
    assert_eq!(summary_period(&row), "s");
    row.month = Some("2026-01".to_string());
    assert_eq!(summary_period(&row), "2026-01");
    row.week = Some("2026-W01".to_string());
    assert_eq!(summary_period(&row), "2026-W01");
    row.date = Some("2026-01-01".to_string());
    assert_eq!(summary_period(&row), "2026-01-01");
    let mut nothing = session_row("s", None);
    nothing.session_id = None;
    assert_eq!(summary_period(&nothing), "");
}

#[test]
fn each_report_has_its_headings() {
    assert_eq!(first_column(AgentReportKind::Daily), "Date");
    assert_eq!(first_column(AgentReportKind::Weekly), "Week");
    assert_eq!(first_column(AgentReportKind::Monthly), "Month");
    assert_eq!(first_column(AgentReportKind::Session), "Session");
    assert_eq!(period_key(AgentReportKind::Daily), "date");
    assert_eq!(period_key(AgentReportKind::Weekly), "week");
    assert_eq!(period_key(AgentReportKind::Monthly), "month");
    assert_eq!(period_key(AgentReportKind::Session), "sessionId");
}

#[test]
fn newest_session_is_last_in_ascending_order() {
    let mut rows = vec![
        session_row("a", Some("2026-01-03")),
        session_row("b", Some("2026-01-01")),
        session_row("c", Some("2026-01-02")),
    ];
    sort_report_rows(&mut rows, AgentReportKind::Session, &SortOrder::Asc);
    assert_eq!(sessions(&rows), ["b", "c", "a"]);
    sort_report_rows(&mut rows, AgentReportKind::Session, &SortOrder::Desc);
    assert_eq!(sessions(&rows), ["a", "c", "b"]);
    sort_report_rows(&mut rows, AgentReportKind::Daily, &SortOrder::Desc);
    assert_eq!(sessions(&rows), ["c", "b", "a"]);
}

#[test]
fn rows_with_equal_keys_keep_their_order() {
    for order in [SortOrder::Asc, SortOrder::Desc] {
        let mut rows: Vec<UsageSummary> = ["q", "w", "e", "r", "t"]
            .iter()
            .map(|id| session_row(id, Some("2026-01-01")))
            .collect();
        sort_report_rows(&mut rows, AgentReportKind::Session, &order);
        assert_eq!(sessions(&rows), ["q", "w", "e", "r", "t"]);
    }
    let mut none: Vec<UsageSummary> = Vec::new();
    sort_report_rows(&mut none, AgentReportKind::Daily, &SortOrder::Asc);
    assert!(none.is_empty());
}

#[test]
fn sorting_rows_again_changes_nothing() {
    for order in [SortOrder::Asc, SortOrder::Desc] {
        let mut rows = vec![
            session_row("a", Some("2026-01-03")),
            session_row("b", Some("2026-01-01")),
            session_row("c", Some("2026-01-03")),
        ];
        sort_report_rows(&mut rows, AgentReportKind::Session, &order);
        let once: Vec<String> = sessions(&rows).iter().map(|id| id.to_string()).collect();
        sort_report_rows(&mut rows, AgentReportKind::Session, &order);
        assert_eq!(sessions(&rows), once);
    }
}

#[test]
fn sorting_agrees_with_the_order_of_strings() {
    let ids = ["", "a", "B", "ab", "aa", "é", "z", "\u{10000}", "\u{ffff}", "a"];
    let mut rows: Vec<UsageSummary> = ids.iter().map(|id| session_row(id, None)).collect();
    sort_report_rows(&mut rows, AgentReportKind::Monthly, &SortOrder::Asc);
    let mut expected = ids.to_vec();
    expected.sort();
    assert_eq!(sessions(&rows), expected);
}

#[test]
fn summary_json_holds_counts_and_cost() {
    let mut row = session_row("s", None);
    row.input_tokens = 10;
    row.output_tokens = 20;
    row.cache_creation_tokens = 0;
    row.cache_read_tokens = 40;
    row.extra_total_tokens = 5;
    row.total_cost = 1.25f64.to_bits();
    row.models_used = vec!["grok-4.6".to_string()];
    row.model_breakdowns = vec![Json::Object(Vec::new())];
    let value = agent_summary_json(&row, AgentReportKind::Session, false);
    assert_eq!(
        names(&value),
        [
            "cacheCreationTokens",
            "cacheReadTokens",
            "inputTokens",
            "modelBreakdowns",
            "modelsUsed",
            "outputTokens",
            "sessionId",
            "totalCost",
            "totalTokens",
        ]
    );
    assert!(matches!(
        value.get("cacheCreationTokens"),
        Some(Json::Number(Number::PosInt(0)))
    ));
    assert!(matches!(
        value.get("totalTokens"),
        Some(Json::Number(Number::PosInt(75)))
    ));
    match value.get("totalCost") {
        Some(Json::Number(Number::Float(bits))) => assert_eq!(f64::from_bits(*bits), 1.25),
        other => panic!("{other:?}"),
    }
    match value.get("sessionId") {
        Some(Json::Text(text)) => assert_eq!(text, "s"),
        other => panic!("{other:?}"),
    }
    match value.get("modelsUsed") {
        Some(Json::Array(items)) => assert_eq!(items.len(), 1),
        other => panic!("{other:?}"),
    }
}

#[test]
fn summary_json_adds_optional_and_session_members() {
    let mut row = session_row("s", Some("2026-01-02"));
    row.date = Some("2026-01-01".to_string());
    row.credits = Some(2.5f64.to_bits());
    row.message_count = Some(3);
    row.total_cost = f64::NAN.to_bits();
    let value = agent_summary_json(&row, AgentReportKind::Daily, true);
    assert_eq!(
        names(&value),
        [
            "cacheCreationTokens",
            "cacheReadTokens",
            "credits",
            "date",
            "firstActivity",
            "inputTokens",
            "lastActivity",
            "messageCount",
            "modelBreakdowns",
            "modelsUsed",
            "outputTokens",
            "projectPath",
            "totalCost",
            "totalTokens",
        ]
    );
    assert!(matches!(value.get("totalCost"), Some(Json::Null)));
    assert!(matches!(value.get("firstActivity"), Some(Json::Null)));
    assert!(matches!(value.get("projectPath"), Some(Json::Null)));
    assert!(matches!(
        value.get("messageCount"),
        Some(Json::Number(Number::PosInt(3)))
    ));
    match value.get("lastActivity") {
        Some(Json::Text(text)) => assert_eq!(text, "2026-01-02"),
        other => panic!("{other:?}"),
    }
}
