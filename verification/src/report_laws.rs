//! Laws of report rows: what they stand for, how they are sorted and what their
//! JSON form tells.

use vstd::prelude::*;

use crate::agent_report::{
    base_members, column_title, count_value, descends, double_value, optional_members, period_name,
    period_of, sort_key_of, sort_keys, sorts_rows, summary_members, text_value, texts_value,
    token_sum, AgentReportKind, SortOrder, UsageSummary,
};
use crate::json::{json_views, member_among, JsonView};
use crate::number::{double_finite, Number};
use crate::object::{law_added_member_is_found, with_member};
use crate::order::{
    char_le, comes_before, is_stable_order, lemma_lex_total, lists, reordered,
};
use crate::text::{opt_text, texts};

verus! {

/// A row stands for the narrowest period that it has: its date, else its week,
/// else its month, else its session, else nothing.
pub proof fn law_row_stands_for_its_narrowest_period(row: UsageSummary)
    ensures
        row.date matches Some(date) ==> period_of(row) == date@,
        row.date is None ==> (row.week matches Some(week) ==> period_of(row) == week@),
        row.date is None && row.week is None ==> (row.month matches Some(month) ==> period_of(row)
            == month@),
        row.date is None && row.week is None && row.month is None ==> (
        row.session_id matches Some(session) ==> period_of(row) == session@),
        row.date is None && row.week is None && row.month is None && row.session_id is None
            ==> period_of(row).len() == 0,
{
}

/// Sessions are sorted by their last activity where they have one, and all
/// other rows by what they stand for.
pub proof fn law_only_sessions_are_sorted_by_activity(row: UsageSummary, kind: AgentReportKind)
    ensures
        kind != AgentReportKind::Session ==> sort_key_of(row, kind) == period_of(row),
        kind == AgentReportKind::Session ==> (row.last_activity matches Some(last) ==> (last@.len()
            > 0 ==> sort_key_of(row, kind) == last@) && (last@.len() == 0 ==> sort_key_of(row, kind)
            == period_of(row))),
        kind == AgentReportKind::Session && row.last_activity is None ==> sort_key_of(row, kind)
            == period_of(row),
{
}

/// Each report has its own heading and its own name for what its rows stand
/// for.
pub proof fn law_reports_have_their_names(kind: AgentReportKind)
    ensures
        kind == AgentReportKind::Daily ==> column_title(kind) == "Date"@ && period_name(kind)
            == "date"@,
        kind == AgentReportKind::Weekly ==> column_title(kind) == "Week"@ && period_name(kind)
            == "week"@,
        kind == AgentReportKind::Monthly ==> column_title(kind) == "Month"@ && period_name(kind)
            == "month"@,
        kind == AgentReportKind::Session ==> column_title(kind) == "Session"@ && period_name(kind)
            == "sessionId"@,
{
}

/// Sorting keeps the rows: none is added and none is lost.
pub proof fn law_sorting_keeps_the_rows(
    rows: Seq<UsageSummary>,
    kind: AgentReportKind,
    order: SortOrder,
    sorted: Seq<UsageSummary>,
    row: UsageSummary,
)
    requires
        sorts_rows(rows, kind, order, sorted),
    ensures
        sorted.len() == rows.len(),
        sorted.contains(row) <==> rows.contains(row),
{
    let descending = descends(order);
    let (keys, places) = choose|keys: Seq<String>, places: Seq<usize>|
        texts(keys) == sort_keys(rows, kind) && #[trigger] is_stable_order(
            keys,
            descending,
            places,
        ) && sorted == reordered(rows, places);
    assert(texts(keys).len() == rows.len());
    if sorted.contains(row) {
        let i = choose|i: int| 0 <= i < sorted.len() && sorted[i] == row;
        assert(rows[places[i] as int] == row);
    }
    if rows.contains(row) {
        let k = choose|k: int| 0 <= k < rows.len() && rows[k] == row;
        assert(lists(places, k));
        let i = choose|i: int| 0 <= i < places.len() && #[trigger] places[i] == k;
        assert(sorted[i] == row);
    }
}

/// Rows that are sorted by the same text keep their order, in ascending and in
/// descending reports.
pub proof fn law_rows_with_equal_keys_keep_their_order(
    rows: Seq<UsageSummary>,
    kind: AgentReportKind,
    order: SortOrder,
    sorted: Seq<UsageSummary>,
    i: int,
    j: int,
)
    requires
        sorts_rows(rows, kind, order, sorted),
        0 <= i < j < rows.len(),
        sort_key_of(rows[i], kind) == sort_key_of(rows[j], kind),
    ensures
        exists|a: int, b: int|
            0 <= a < b < sorted.len() && #[trigger] sorted[a] == rows[i] && #[trigger] sorted[b]
                == rows[j],
{
    let descending = descends(order);
    let (keys, places) = choose|keys: Seq<String>, places: Seq<usize>|
        texts(keys) == sort_keys(rows, kind) && #[trigger] is_stable_order(
            keys,
            descending,
            places,
        ) && sorted == reordered(rows, places);
    assert(texts(keys).len() == rows.len());
    assert(texts(keys)[i] == keys[i]@);
    assert(texts(keys)[j] == keys[j]@);
    assert(lists(places, i));
    assert(lists(places, j));
    let a = choose|a: int| 0 <= a < places.len() && #[trigger] places[a] == i;
    let b = choose|b: int| 0 <= b < places.len() && #[trigger] places[b] == j;
    if b < a {
        assert(comes_before(keys, descending, places[b] as int, places[a] as int));
        lemma_lex_total(char_le(), keys[i]@, keys[j]@);
    }
    assert(sorted[a] == rows[i]);
    assert(sorted[b] == rows[j]);
}

/// All tokens of a row are its input, its output, its cache writes, its cache
/// reads and its extra tokens, each once.
pub proof fn law_all_tokens_of_a_row_are_added_up(row: UsageSummary)
    ensures
        token_sum(row) == row.extra_total_tokens as int + row.cache_read_tokens as int
            + row.cache_creation_tokens as int + row.output_tokens as int
            + row.input_tokens as int,
{
}

proof fn lemma_added(members: Seq<(Seq<char>, JsonView)>, key: Seq<char>, value: JsonView)
    ensures
        forall|name: Seq<char>| #[trigger]
            member_among(with_member(members, key, value), name) == (if name == key {
                Some(value)
            } else {
                member_among(members, name)
            }),
{
    assert forall|name: Seq<char>| #[trigger]
        member_among(with_member(members, key, value), name) == (if name == key {
            Some(value)
        } else {
            member_among(members, name)
        }) by {
        law_added_member_is_found(members, key, value, name);
    }
}

/// The JSON form of a count, of a double and of a text.
pub open spec fn is_count(found: Option<JsonView>, n: int) -> bool {
    found matches Some(JsonView::Number(Number::PosInt(count))) && count == n
}

pub open spec fn is_double(found: Option<JsonView>, bits: u64) -> bool {
    if double_finite(bits) {
        found == Some(JsonView::Number(Number::Float(bits)))
    } else {
        found == Some(JsonView::Null)
    }
}

pub open spec fn is_text(found: Option<JsonView>, text: Option<String>) -> bool {
    match text {
        Some(t) => found == Some(JsonView::Text(t@)),
        None => found == Some(JsonView::Null),
    }
}

proof fn lemma_names_differ(kind: AgentReportKind)
    ensures
        "inputTokens"@.len() == 11 && "inputTokens"@[0] == 'i',
        "outputTokens"@.len() == 12 && "outputTokens"@[0] == 'o',
        "cacheCreationTokens"@.len() == 19 && "cacheCreationTokens"@[0] == 'c',
        "cacheReadTokens"@.len() == 15 && "cacheReadTokens"@[0] == 'c',
        "totalTokens"@.len() == 11 && "totalTokens"@[0] == 't',
        "totalCost"@.len() == 9 && "totalCost"@[0] == 't',
        "modelsUsed"@.len() == 10 && "modelsUsed"@[0] == 'm',
        "modelBreakdowns"@.len() == 15 && "modelBreakdowns"@[0] == 'm',
        "credits"@.len() == 7 && "credits"@[0] == 'c',
        "messageCount"@.len() == 12 && "messageCount"@[0] == 'm',
        "lastActivity"@.len() == 12 && "lastActivity"@[0] == 'l',
        "firstActivity"@.len() == 13 && "firstActivity"@[0] == 'f',
        "projectPath"@.len() == 11 && "projectPath"@[0] == 'p',
        period_name(kind).len() <= 5 || (period_name(kind).len() == 9 && period_name(kind)[0]
            == 's'),
{
    reveal_strlit("inputTokens");
    reveal_strlit("outputTokens");
    reveal_strlit("cacheCreationTokens");
    reveal_strlit("cacheReadTokens");
    reveal_strlit("totalTokens");
    reveal_strlit("totalCost");
    reveal_strlit("modelsUsed");
    reveal_strlit("modelBreakdowns");
    reveal_strlit("credits");
    reveal_strlit("messageCount");
    reveal_strlit("lastActivity");
    reveal_strlit("firstActivity");
    reveal_strlit("projectPath");
    reveal_strlit("date");
    reveal_strlit("week");
    reveal_strlit("month");
    reveal_strlit("sessionId");
    assert("inputTokens"@.len() == 11 && "inputTokens"@[0] == 'i');
    assert("outputTokens"@.len() == 12 && "outputTokens"@[0] == 'o');
    assert("cacheCreationTokens"@.len() == 19 && "cacheCreationTokens"@[0] == 'c');
    assert("cacheReadTokens"@.len() == 15 && "cacheReadTokens"@[0] == 'c');
    assert("totalTokens"@.len() == 11 && "totalTokens"@[0] == 't');
    assert("totalCost"@.len() == 9 && "totalCost"@[0] == 't');
    assert("modelsUsed"@.len() == 10 && "modelsUsed"@[0] == 'm');
    assert("modelBreakdowns"@.len() == 15 && "modelBreakdowns"@[0] == 'm');
    assert("credits"@.len() == 7 && "credits"@[0] == 'c');
    assert("messageCount"@.len() == 12 && "messageCount"@[0] == 'm');
    assert("lastActivity"@.len() == 12 && "lastActivity"@[0] == 'l');
    assert("firstActivity"@.len() == 13 && "firstActivity"@[0] == 'f');
    assert("projectPath"@.len() == 11 && "projectPath"@[0] == 'p');
    assert("date"@.len() == 4 && "date"@[0] == 'd');
    assert("week"@.len() == 4 && "week"@[0] == 'w');
    assert("month"@.len() == 5 && "month"@[0] == 'm');
    assert("sessionId"@.len() == 9 && "sessionId"@[0] == 's');
}

/// The JSON form of a row tells each of its parts under its own name: what it
/// stands for, its counts and their sum, its cost, its models, and, where it has
/// them, its credits and its message count; and of a session, where that is
/// asked for, its activity and its project.
pub proof fn law_json_form_tells_the_parts_of_a_row(
    row: UsageSummary,
    kind: AgentReportKind,
    include_session_metadata: bool,
)
    requires
        token_sum(row) <= u64::MAX,
    ensures
        ({
            let m = summary_members(row, kind, include_session_metadata);
            &&& member_among(m, period_name(kind)) == Some(JsonView::Text(period_of(row)))
            &&& is_count(member_among(m, "inputTokens"@), row.input_tokens as int)
            &&& is_count(member_among(m, "outputTokens"@), row.output_tokens as int)
            &&& is_count(member_among(m, "cacheCreationTokens"@), row.cache_creation_tokens as int)
            &&& is_count(member_among(m, "cacheReadTokens"@), row.cache_read_tokens as int)
            &&& is_count(
                member_among(m, "totalTokens"@),
                row.input_tokens + row.output_tokens + row.cache_creation_tokens
                    + row.cache_read_tokens + row.extra_total_tokens,
            )
            &&& is_double(member_among(m, "totalCost"@), row.total_cost)
            &&& member_among(m, "modelsUsed"@) == Some(
                JsonView::Array(
                    Seq::new(
                        row.models_used@.len(),
                        |i: int| JsonView::Text(row.models_used@[i]@),
                    ),
                ),
            )
            &&& member_among(m, "modelBreakdowns"@) == Some(
                JsonView::Array(json_views(row.model_breakdowns@)),
            )
            &&& row.credits matches Some(credits) ==> is_double(
                member_among(m, "credits"@),
                credits,
            )
            &&& row.credits is None ==> member_among(m, "credits"@) is None
            &&& row.message_count matches Some(count) ==> is_count(
                member_among(m, "messageCount"@),
                count as int,
            )
            &&& row.message_count is None ==> member_among(m, "messageCount"@) is None
            &&& include_session_metadata ==> is_text(
                member_among(m, "lastActivity"@),
                row.last_activity,
            ) && is_text(member_among(m, "firstActivity"@), row.first_activity) && is_text(
                member_among(m, "projectPath"@),
                row.project_path,
            )
            &&& !include_session_metadata ==> member_among(m, "lastActivity"@) is None
                && member_among(m, "firstActivity"@) is None && member_among(
                m,
                "projectPath"@,
            ) is None
        }),
{
    lemma_names_differ(kind);
    let period = period_name(kind);
    let m = Seq::<(Seq<char>, JsonView)>::empty();
    let v = JsonView::Text(period_of(row));
    lemma_added(m, period, v);
    let m = with_member(m, period, v);
    let v = count_value(row.input_tokens);
    lemma_added(m, "inputTokens"@, v);
    let m = with_member(m, "inputTokens"@, v);
    let v = count_value(row.output_tokens);
    lemma_added(m, "outputTokens"@, v);
    let m = with_member(m, "outputTokens"@, v);
    let v = count_value(row.cache_creation_tokens);
    lemma_added(m, "cacheCreationTokens"@, v);
    let m = with_member(m, "cacheCreationTokens"@, v);
    let v = count_value(row.cache_read_tokens);
    lemma_added(m, "cacheReadTokens"@, v);
    let m = with_member(m, "cacheReadTokens"@, v);
    let v = count_value(token_sum(row) as u64);
    lemma_added(m, "totalTokens"@, v);
    let m = with_member(m, "totalTokens"@, v);
    let v = double_value(row.total_cost);
    lemma_added(m, "totalCost"@, v);
    let m = with_member(m, "totalCost"@, v);
    let v = texts_value(texts(row.models_used@));
    assert(v->Array_0 =~= Seq::new(
        row.models_used@.len(),
        |i: int| JsonView::Text(row.models_used@[i]@),
    ));
    lemma_added(m, "modelsUsed"@, v);
    let m = with_member(m, "modelsUsed"@, v);
    let v = JsonView::Array(json_views(row.model_breakdowns@));
    lemma_added(m, "modelBreakdowns"@, v);
    let m = with_member(m, "modelBreakdowns"@, v);
    assert(m == base_members(row, kind));
    match row.credits {
        Some(credits) => {
            lemma_added(m, "credits"@, double_value(credits));
        },
        None => {},
    }
    let m = match row.credits {
        Some(credits) => with_member(
            m,
            "credits"@,
            double_value(credits),
        ),
        None => m,
    };
    match row.message_count {
        Some(count) => {
            lemma_added(m, "messageCount"@, count_value(count));
        },
        None => {},
    }
    let m = match row.message_count {
        Some(count) => with_member(m, "messageCount"@, count_value(count)),
        None => m,
    };
    assert(m == optional_members(
        row,
        base_members(row, kind),
    ));
    let v = text_value(opt_text(row.last_activity));
    lemma_added(m, "lastActivity"@, v);
    let m = with_member(m, "lastActivity"@, v);
    let v = text_value(opt_text(row.first_activity));
    lemma_added(m, "firstActivity"@, v);
    let m = with_member(m, "firstActivity"@, v);
    let v = text_value(opt_text(row.project_path));
    lemma_added(m, "projectPath"@, v);
}

} // verus!
