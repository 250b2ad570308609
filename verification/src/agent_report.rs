//! Rows of an agent report: their period, their order and their JSON form.

use vstd::prelude::*;

use crate::json::{json_views, member_among, Json, JsonView, Member};
use crate::number::{double_finite, double_parts, Number};
use crate::object::{
    insert_member, law_added_member_is_found, lemma_object_view, member_views, with_member,
};
use crate::order::{
    comes_before, is_stable_order, law_sorted_items_stay, not_after, reordered, sort_by_keys,
    text_le,
};
use crate::text::{opt_text, texts};

verus! {

/// What the rows of a report stand for.
#[derive(Clone, Copy, Debug, PartialEq, Eq, Structural)]
pub enum AgentReportKind {
    Daily,
    Weekly,
    Monthly,
    Session,
}

/// The order of the rows of a report.
#[derive(Clone, Copy, Debug, PartialEq, Eq, Structural)]
pub enum SortOrder {
    Asc,
    Desc,
}

/// One row of a report. Costs and credits are doubles, given by their bits.
#[derive(Debug)]
pub struct UsageSummary {
    pub date: Option<String>,
    pub month: Option<String>,
    pub week: Option<String>,
    pub session_id: Option<String>,
    pub project_path: Option<String>,
    pub last_activity: Option<String>,
    pub first_activity: Option<String>,
    pub input_tokens: u64,
    pub output_tokens: u64,
    pub cache_creation_tokens: u64,
    pub cache_read_tokens: u64,
    pub extra_total_tokens: u64,
    pub total_cost: u64,
    pub credits: Option<u64>,
    pub message_count: Option<u64>,
    pub models_used: Vec<String>,
    pub model_breakdowns: Vec<Json>,
    pub project: Option<String>,
    pub versions: Option<Vec<String>>,
}

/// The heading of the first column of a report.
pub open spec fn column_title(kind: AgentReportKind) -> Seq<char> {
    match kind {
        AgentReportKind::Daily => "Date"@,
        AgentReportKind::Weekly => "Week"@,
        AgentReportKind::Monthly => "Month"@,
        AgentReportKind::Session => "Session"@,
    }
}

/// The heading of the first column of a report.
pub fn first_column(kind: AgentReportKind) -> (title: &'static str)
    ensures
        title@ == column_title(kind),
{
    match kind {
        AgentReportKind::Daily => "Date",
        AgentReportKind::Weekly => "Week",
        AgentReportKind::Monthly => "Month",
        AgentReportKind::Session => "Session",
    }
}

/// The name under which the JSON form of a row holds its period.
pub open spec fn period_name(kind: AgentReportKind) -> Seq<char> {
    match kind {
        AgentReportKind::Daily => "date"@,
        AgentReportKind::Weekly => "week"@,
        AgentReportKind::Monthly => "month"@,
        AgentReportKind::Session => "sessionId"@,
    }
}

/// The name under which the JSON form of a row holds its period.
pub fn period_key(kind: AgentReportKind) -> (name: &'static str)
    ensures
        name@ == period_name(kind),
{
    match kind {
        AgentReportKind::Daily => "date",
        AgentReportKind::Weekly => "week",
        AgentReportKind::Monthly => "month",
        AgentReportKind::Session => "sessionId",
    }
}

/// What a row stands for: its date, else its week, else its month, else its
/// session, else nothing.
pub open spec fn period_of(row: UsageSummary) -> Seq<char> {
    match (row.date, row.week, row.month, row.session_id) {
        (Some(date), _, _, _) => date@,
        (None, Some(week), _, _) => week@,
        (None, None, Some(month), _) => month@,
        (None, None, None, Some(session)) => session@,
        (None, None, None, None) => Seq::empty(),
    }
}

/// What a row stands for.
pub fn summary_period<'a>(row: &'a UsageSummary) -> (period: &'a str)
    ensures
        period@ == period_of(*row),
{
    match &row.date {
        Some(date) => {
            return date.as_str();
        },
        None => {},
    }
    match &row.week {
        Some(week) => {
            return week.as_str();
        },
        None => {},
    }
    match &row.month {
        Some(month) => {
            return month.as_str();
        },
        None => {},
    }
    match &row.session_id {
        Some(session) => session.as_str(),
        None => {
            proof {
                reveal_strlit("");
                assert(""@ =~= Seq::<char>::empty());
            }
            ""
        },
    }
}

/// What a row is sorted by: a session by its last activity where there is one,
/// any other row by its period.
pub open spec fn sort_key_of(row: UsageSummary, kind: AgentReportKind) -> Seq<char> {
    if kind == AgentReportKind::Session {
        match row.last_activity {
            Some(last) => if last@.len() > 0 {
                last@
            } else {
                period_of(row)
            },
            None => period_of(row),
        }
    } else {
        period_of(row)
    }
}

/// What a row is sorted by.
///
/// Sessions are ordered by last activity so the newest session is last in
/// ascending order. Other reports keep their period.
pub fn report_sort_key<'a>(row: &'a UsageSummary, kind: AgentReportKind) -> (key: &'a str)
    ensures
        key@ == sort_key_of(*row, kind),
{
    if kind == AgentReportKind::Session {
        match &row.last_activity {
            Some(last) => {
                if last.as_str().unicode_len() > 0 {
                    return last.as_str();
                }
            },
            None => {},
        }
    }
    summary_period(row)
}

/// What each row is sorted by.
pub open spec fn sort_keys(rows: Seq<UsageSummary>, kind: AgentReportKind) -> Seq<Seq<char>> {
    Seq::new(rows.len(), |i: int| sort_key_of(rows[i], kind))
}

/// Whether the greatest keys come first.
pub open spec fn descends(order: SortOrder) -> bool {
    order == SortOrder::Desc
}

/// Whether `sorted` holds the rows in order, rows with equal keys in their own
/// order.
pub open spec fn sorts_rows(
    rows: Seq<UsageSummary>,
    kind: AgentReportKind,
    order: SortOrder,
    sorted: Seq<UsageSummary>,
) -> bool {
    exists|keys: Seq<String>, places: Seq<usize>|
        texts(keys) == sort_keys(rows, kind) && #[trigger] is_stable_order(
            keys,
            descends(order),
            places,
        ) && sorted == reordered(rows, places)
}

/// Sorts the rows of a report; rows with equal keys keep their order.
pub fn sort_report_rows(rows: &mut Vec<UsageSummary>, kind: AgentReportKind, order: &SortOrder)
    ensures
        sorts_rows(old(rows)@, kind, *order, final(rows)@),
{
    let ghost before = rows@;
    let mut keys: Vec<String> = Vec::new();
    let mut i: usize = 0;
    while i < rows.len()
        invariant
            rows@ == before,
            i <= rows@.len(),
            keys@.len() == i,
            forall|j: int| 0 <= j < i ==> (#[trigger] keys@[j])@ == sort_key_of(before[j], kind),
        decreases rows@.len() - i,
    {
        keys.push(report_sort_key(&rows[i], kind).to_owned());
        i += 1;
    }
    proof {
        assert(texts(keys@) =~= sort_keys(before, kind));
    }
    let descending = *order == SortOrder::Desc;
    let mut taken: Vec<UsageSummary> = Vec::new();
    taken.append(rows);
    proof {
        assert(taken@ =~= before);
    }
    let mut sorted = sort_by_keys(taken, &keys, descending);
    let ghost result = sorted@;
    rows.append(&mut sorted);
    proof {
        assert(rows@ =~= result);
        let places = choose|places: Seq<usize>|
            is_stable_order(keys@, descending, places) && result == reordered(before, places);
        assert(is_stable_order(keys@, descends(*order), places));
    }
}

/// Rows come out in the order of what they are sorted by.
pub proof fn law_rows_are_in_order(
    rows: Seq<UsageSummary>,
    kind: AgentReportKind,
    order: SortOrder,
    sorted: Seq<UsageSummary>,
    i: int,
    j: int,
)
    requires
        sorts_rows(rows, kind, order, sorted),
        0 <= i < j < sorted.len(),
    ensures
        match order {
            SortOrder::Asc => text_le(sort_key_of(sorted[i], kind), sort_key_of(sorted[j], kind)),
            SortOrder::Desc => text_le(sort_key_of(sorted[j], kind), sort_key_of(sorted[i], kind)),
        },
{
    let descending = descends(order);
    let (keys, places) = choose|keys: Seq<String>, places: Seq<usize>|
        texts(keys) == sort_keys(rows, kind) && #[trigger] is_stable_order(
            keys,
            descending,
            places,
        ) && sorted == reordered(rows, places);
    let a = places[i] as int;
    let b = places[j] as int;
    assert(comes_before(keys, descending, a, b));
    assert(texts(keys).len() == rows.len());
    assert(texts(keys)[a] == keys[a]@);
    assert(texts(keys)[b] == keys[b]@);
    assert(sorted[i] == rows[a]);
    assert(sorted[j] == rows[b]);
}

/// Under ascending order the newest session is last: no session has a later
/// last activity than the last row.
pub proof fn law_newest_session_is_last(
    rows: Seq<UsageSummary>,
    sorted: Seq<UsageSummary>,
    i: int,
)
    requires
        sorts_rows(rows, AgentReportKind::Session, SortOrder::Asc, sorted),
        0 <= i < sorted.len() - 1,
        sorted[i].last_activity matches Some(last) && last@.len() > 0,
        sorted.last().last_activity matches Some(last) && last@.len() > 0,
    ensures
        text_le(sorted[i].last_activity->0@, sorted.last().last_activity->0@),
{
    law_rows_are_in_order(
        rows,
        AgentReportKind::Session,
        SortOrder::Asc,
        sorted,
        i,
        sorted.len() - 1,
    );
}

/// Sorting sorted rows again changes nothing.
pub proof fn law_sorting_again_changes_nothing(
    rows: Seq<UsageSummary>,
    kind: AgentReportKind,
    order: SortOrder,
    sorted: Seq<UsageSummary>,
    again: Seq<UsageSummary>,
)
    requires
        sorts_rows(rows, kind, order, sorted),
        sorts_rows(sorted, kind, order, again),
    ensures
        again == sorted,
{
    let descending = descends(order);
    let (keys, places) = choose|keys: Seq<String>, places: Seq<usize>|
        texts(keys) == sort_keys(sorted, kind) && #[trigger] is_stable_order(
            keys,
            descending,
            places,
        ) && again == reordered(sorted, places);
    assert(texts(keys).len() == sorted.len());
    assert forall|i: int, j: int| 0 <= i < j < keys.len() implies #[trigger] not_after(
        keys,
        descending,
        i,
        j,
    ) by {
        law_rows_are_in_order(rows, kind, order, sorted, i, j);
        assert(texts(keys)[i] == keys[i]@);
        assert(texts(keys)[j] == keys[j]@);
    }
    law_sorted_items_stay(keys, descending, places, sorted);
}

/// All tokens of a row.
pub open spec fn token_sum(row: UsageSummary) -> nat {
    (row.input_tokens + row.output_tokens + row.cache_creation_tokens + row.cache_read_tokens
        + row.extra_total_tokens) as nat
}

impl UsageSummary {
    /// All tokens of the row.
    pub fn total_tokens(&self) -> (total: u64)
        requires
            token_sum(*self) <= u64::MAX,
        ensures
            total == token_sum(*self),
    {
        self.input_tokens + self.output_tokens + self.cache_creation_tokens
            + self.cache_read_tokens + self.extra_total_tokens
    }
}

/// The JSON form of a count.
pub open spec fn count_value(n: u64) -> JsonView {
    JsonView::Number(Number::PosInt(n))
}

/// The JSON form of a double: null where it is not finite.
pub open spec fn double_value(bits: u64) -> JsonView {
    if double_finite(bits) {
        JsonView::Number(Number::Float(bits))
    } else {
        JsonView::Null
    }
}

/// The JSON form of a text that may be absent.
pub open spec fn text_value(text: Option<Seq<char>>) -> JsonView {
    match text {
        Some(t) => JsonView::Text(t),
        None => JsonView::Null,
    }
}

/// The JSON form of a list of texts.
pub open spec fn texts_value(list: Seq<Seq<char>>) -> JsonView {
    JsonView::Array(Seq::new(list.len(), |i: int| JsonView::Text(list[i])))
}

/// The members that every row has in its JSON form.
pub open spec fn base_members(row: UsageSummary, kind: AgentReportKind) -> Seq<
    (Seq<char>, JsonView),
> {
    let m = Seq::<(Seq<char>, JsonView)>::empty();
    let m = with_member(m, period_name(kind), JsonView::Text(period_of(row)));
    let m = with_member(m, "inputTokens"@, count_value(row.input_tokens));
    let m = with_member(m, "outputTokens"@, count_value(row.output_tokens));
    let m = with_member(m, "cacheCreationTokens"@, count_value(row.cache_creation_tokens));
    let m = with_member(m, "cacheReadTokens"@, count_value(row.cache_read_tokens));
    let m = with_member(m, "totalTokens"@, count_value(token_sum(row) as u64));
    let m = with_member(m, "totalCost"@, double_value(row.total_cost));
    let m = with_member(m, "modelsUsed"@, texts_value(texts(row.models_used@)));
    with_member(m, "modelBreakdowns"@, JsonView::Array(json_views(row.model_breakdowns@)))
}

/// The members that a row has in its JSON form where it has credits and a
/// message count.
pub open spec fn optional_members(
    row: UsageSummary,
    members: Seq<(Seq<char>, JsonView)>,
) -> Seq<(Seq<char>, JsonView)> {
    let m = match row.credits {
        Some(credits) => with_member(members, "credits"@, double_value(credits)),
        None => members,
    };
    match row.message_count {
        Some(count) => with_member(m, "messageCount"@, count_value(count)),
        None => m,
    }
}

/// The members that tell of a session, added to others.
pub open spec fn session_members(
    row: UsageSummary,
    members: Seq<(Seq<char>, JsonView)>,
) -> Seq<(Seq<char>, JsonView)> {
    let m = with_member(members, "lastActivity"@, text_value(opt_text(row.last_activity)));
    let m = with_member(m, "firstActivity"@, text_value(opt_text(row.first_activity)));
    with_member(m, "projectPath"@, text_value(opt_text(row.project_path)))
}

/// The members of the JSON form of a row.
pub open spec fn summary_members(
    row: UsageSummary,
    kind: AgentReportKind,
    include_session_metadata: bool,
) -> Seq<(Seq<char>, JsonView)> {
    let m = optional_members(row, base_members(row, kind));
    if include_session_metadata {
        session_members(row, m)
    } else {
        m
    }
}

fn double_json(bits: u64) -> (value: Json)
    ensures
        value@ == double_value(bits),
{
    let (finite, _, _, _) = double_parts(bits);
    if finite {
        Json::Number(Number::Float(bits))
    } else {
        Json::Null
    }
}

fn count_json(n: u64) -> (value: Json)
    ensures
        value@ == count_value(n),
{
    Json::Number(Number::PosInt(n))
}

fn text_json(text: &Option<String>) -> (value: Json)
    ensures
        value@ == text_value(opt_text(*text)),
{
    match text {
        Some(t) => Json::Text(t.clone()),
        None => Json::Null,
    }
}

fn texts_json(list: &Vec<String>) -> (value: Json)
    ensures
        value@ == texts_value(texts(list@)),
{
    let mut items: Vec<Json> = Vec::new();
    let mut i: usize = 0;
    while i < list.len()
        invariant
            i <= list@.len(),
            items@.len() == i,
            forall|j: int| 0 <= j < i ==> (#[trigger] items@[j])@ == JsonView::Text(list@[j]@),
        decreases list@.len() - i,
    {
        items.push(Json::Text(list[i].clone()));
        i += 1;
    }
    let value = Json::Array(items);
    proof {
        assert(value@->Array_0 =~= texts_value(texts(list@))->Array_0);
    }
    value
}

fn values_json(list: &Vec<Json>) -> (value: Json)
    ensures
        value@ == JsonView::Array(json_views(list@)),
{
    let mut items: Vec<Json> = Vec::new();
    let mut i: usize = 0;
    while i < list.len()
        invariant
            i <= list@.len(),
            items@.len() == i,
            forall|j: int| 0 <= j < i ==> (#[trigger] items@[j])@ == list@[j]@,
        decreases list@.len() - i,
    {
        items.push(list[i].duplicate());
        i += 1;
    }
    let value = Json::Array(items);
    proof {
        assert(value@->Array_0 =~= json_views(list@));
    }
    value
}

/// The JSON form of a row.
pub fn agent_summary_json(
    row: &UsageSummary,
    kind: AgentReportKind,
    include_session_metadata: bool,
) -> (value: Json)
    requires
        token_sum(*row) <= u64::MAX,
    ensures
        value@ == JsonView::Object(summary_members(*row, kind, include_session_metadata)),
{
    let mut m: Vec<Member> = Vec::new();
    proof {
        assert(member_views(m@) =~= Seq::<(Seq<char>, JsonView)>::empty());
    }
    insert_member(&mut m, period_key(kind).to_owned(), Json::Text(summary_period(row).to_owned()));
    insert_member(&mut m, "inputTokens".to_owned(), count_json(row.input_tokens));
    insert_member(&mut m, "outputTokens".to_owned(), count_json(row.output_tokens));
    insert_member(&mut m, "cacheCreationTokens".to_owned(), count_json(row.cache_creation_tokens));
    insert_member(&mut m, "cacheReadTokens".to_owned(), count_json(row.cache_read_tokens));
    insert_member(&mut m, "totalTokens".to_owned(), count_json(row.total_tokens()));
    insert_member(&mut m, "totalCost".to_owned(), double_json(row.total_cost));
    insert_member(&mut m, "modelsUsed".to_owned(), texts_json(&row.models_used));
    insert_member(&mut m, "modelBreakdowns".to_owned(), values_json(&row.model_breakdowns));
    match row.credits {
        Some(credits) => {
            insert_member(&mut m, "credits".to_owned(), double_json(credits));
        },
        None => {},
    }
    match row.message_count {
        Some(count) => {
            insert_member(&mut m, "messageCount".to_owned(), count_json(count));
        },
        None => {},
    }
    if include_session_metadata {
        insert_member(&mut m, "lastActivity".to_owned(), text_json(&row.last_activity));
        insert_member(&mut m, "firstActivity".to_owned(), text_json(&row.first_activity));
        insert_member(&mut m, "projectPath".to_owned(), text_json(&row.project_path));
    }
    proof {
        lemma_object_view(m);
    }
    Json::Object(m)
}

/// Adding members other than `name` leaves what is found under `name`.
proof fn lemma_still_found(
    members: Seq<(Seq<char>, JsonView)>,
    name: Seq<char>,
    other: Seq<char>,
    value: JsonView,
)
    requires
        other.len() != name.len(),
    ensures
        member_among(with_member(members, other, value), name) == member_among(members, name),
{
    law_added_member_is_found(members, other, value, name);
}

/// The JSON form of a row holds its cache creation count, be it zero or not.
pub proof fn law_cache_creation_is_always_there(
    row: UsageSummary,
    kind: AgentReportKind,
    include_session_metadata: bool,
)
    ensures
        member_among(
            summary_members(row, kind, include_session_metadata),
            "cacheCreationTokens"@,
        ) == Some(count_value(row.cache_creation_tokens)),
{
    reveal_strlit("inputTokens");
    reveal_strlit("outputTokens");
    reveal_strlit("cacheCreationTokens");
    reveal_strlit("cacheReadTokens");
    reveal_strlit("totalTokens");
    reveal_strlit("totalCost");
    reveal_strlit("modelsUsed");
    reveal_strlit("modelBreakdowns");
    reveal_strlit("credits");
    reveal_strlit("messageCount");
    reveal_strlit("lastActivity");
    reveal_strlit("firstActivity");
    reveal_strlit("projectPath");
    let name = "cacheCreationTokens"@;
    let m = Seq::<(Seq<char>, JsonView)>::empty();
    let m = with_member(m, period_name(kind), JsonView::Text(period_of(row)));
    let m = with_member(m, "inputTokens"@, count_value(row.input_tokens));
    let m = with_member(m, "outputTokens"@, count_value(row.output_tokens));
    law_added_member_is_found(m, name, count_value(row.cache_creation_tokens), name);
    let m = with_member(m, name, count_value(row.cache_creation_tokens));
    let value = count_value(row.cache_read_tokens);
    lemma_still_found(m, name, "cacheReadTokens"@, value);
    let m = with_member(m, "cacheReadTokens"@, value);
    let value = count_value(token_sum(row) as u64);
    lemma_still_found(m, name, "totalTokens"@, value);
    let m = with_member(m, "totalTokens"@, value);
    let value = double_value(row.total_cost);
    lemma_still_found(m, name, "totalCost"@, value);
    let m = with_member(m, "totalCost"@, value);
    let value = texts_value(texts(row.models_used@));
    lemma_still_found(m, name, "modelsUsed"@, value);
    let m = with_member(m, "modelsUsed"@, value);
    let value = JsonView::Array(json_views(row.model_breakdowns@));
    lemma_still_found(m, name, "modelBreakdowns"@, value);
    let m = with_member(m, "modelBreakdowns"@, value);
    assert(m == base_members(row, kind));
    match row.credits {
        Some(credits) => {
            lemma_still_found(m, name, "credits"@, double_value(credits));
        },
        None => {},
    }
    let m = match row.credits {
        Some(credits) => with_member(m, "credits"@, double_value(credits)),
        None => m,
    };
    match row.message_count {
        Some(count) => {
            lemma_still_found(m, name, "messageCount"@, count_value(count));
        },
        None => {},
    }
    let m = optional_members(row, base_members(row, kind));
    let value = text_value(opt_text(row.last_activity));
    lemma_still_found(m, name, "lastActivity"@, value);
    let m = with_member(m, "lastActivity"@, value);
    let value = text_value(opt_text(row.first_activity));
    lemma_still_found(m, name, "firstActivity"@, value);
    let m = with_member(m, "firstActivity"@, value);
    let value = text_value(opt_text(row.project_path));
    lemma_still_found(m, name, "projectPath"@, value);
}

} // verus!
