//! From JSON trees to usage records.

use vstd::prelude::*;

use crate::clock::{instant_text, parse_ts_timestamp};
use crate::json::{
    child, child_count, json_f64, json_string, lemma_child_is_smaller, member, names, nonblank,
    opt_json, text_at, trimmed_text, Json, JsonView,
};
use crate::number::{instant_of, timestamp_from_number};
use crate::text::{opt_text, opt_view};
use crate::usage::{
    has_tokens, parse_usage_value, usage_in, usage_in_opt, RecordedCost, TokenUsageRaw,
};

verus! {

/// One recorded turn: when it was, whose it was, and what it used.
#[derive(Debug)]
pub struct CursorUsageRecord {
    pub timestamp: i64,
    pub session_id: String,
    pub message_id: String,
    pub model: String,
    pub model_id: Option<String>,
    pub usage: TokenUsageRaw,
    pub cost_usd: Option<RecordedCost>,
    pub project_path: String,
}

/// The mathematical view of a usage record.
#[verifier::ext_equal]
pub struct RecordView {
    pub timestamp: i64,
    pub session_id: Seq<char>,
    pub message_id: Seq<char>,
    pub model: Seq<char>,
    pub model_id: Option<Seq<char>>,
    pub usage: TokenUsageRaw,
    pub cost_usd: Option<RecordedCost>,
    pub project_path: Seq<char>,
}

impl View for CursorUsageRecord {
    type V = RecordView;

    open spec fn view(&self) -> RecordView {
        RecordView {
            timestamp: self.timestamp,
            session_id: self.session_id@,
            message_id: self.message_id@,
            model: self.model@,
            model_id: opt_text(self.model_id),
            usage: self.usage,
            cost_usd: self.cost_usd,
            project_path: self.project_path@,
        }
    }
}

/// The view of a record that may be absent.
pub open spec fn opt_record(record: Option<CursorUsageRecord>) -> Option<RecordView> {
    match record {
        Some(r) => Some(r@),
        None => None,
    }
}

/// The views of a list of records.
pub open spec fn record_views(list: Seq<CursorUsageRecord>) -> Seq<RecordView> {
    Seq::new(list.len(), |i: int| list[i]@)
}

/// The first value, or the second where there is no first.
pub open spec fn either<T>(first: Option<T>, second: Option<T>) -> Option<T> {
    match first {
        Some(_) => first,
        None => second,
    }
}

/// The text, or another where there is none.
pub open spec fn text_or(text: Option<Seq<char>>, other: Seq<char>) -> Seq<char> {
    match text {
        Some(t) => t,
        None => other,
    }
}

pub(crate) fn copy_opt(text: &Option<String>) -> (copy: Option<String>)
    ensures
        opt_text(copy) == opt_text(*text),
{
    match text {
        Some(t) => Some(t.clone()),
        None => None,
    }
}

/// The instant that a value spells: a number, or a text with a date and time.
pub open spec fn instant_in(v: Option<JsonView>) -> Option<i64> {
    match v {
        Some(JsonView::Number(number)) => instant_of(number),
        Some(JsonView::Text(text)) => instant_text(text),
        _ => None,
    }
}

/// The first instant among the members of `v` named in `keys`.
pub open spec fn instant_at(v: JsonView, keys: Seq<Seq<char>>) -> Option<i64>
    decreases keys.len(),
{
    if keys.len() == 0 {
        None
    } else {
        match instant_in(member(v, keys[0])) {
            Some(instant) => Some(instant),
            None => instant_at(v, keys.skip(1)),
        }
    }
}

pub open spec fn instant_keys() -> Seq<Seq<char>> {
    seq![
        "timestamp"@,
        "timestamp_ms"@,
        "startedAt"@,
        "started_at"@,
        "createdAt"@,
        "created_at"@,
        "endedAt"@,
        "ended_at"@,
        "updatedAt"@,
        "updated_at"@,
    ]
}

/// The instant that an object records.
pub open spec fn recorded_instant(v: JsonView) -> Option<i64> {
    instant_at(v, instant_keys())
}

/// Reads a value as an instant.
pub fn timestamp_from_number_value(value: Option<&Json>) -> (instant: Option<i64>)
    ensures
        instant == instant_in(opt_json(value)),
{
    match value {
        Some(json) => match json_f64(json) {
            Some(number) => timestamp_from_number(number),
            None => match json.as_str() {
                Some(text) => parse_ts_timestamp(text),
                None => None,
            },
        },
        None => None,
    }
}

/// Reads the instant that an object records.
pub fn timestamp_from_value(value: &Json) -> (instant: Option<i64>)
    ensures
        instant == recorded_instant(value@),
{
    let keys = [
        "timestamp",
        "timestamp_ms",
        "startedAt",
        "started_at",
        "createdAt",
        "created_at",
        "endedAt",
        "ended_at",
        "updatedAt",
        "updated_at",
    ];
    let ghost all = instant_keys();
    let mut i: usize = 0;
    proof {
        assert(names(keys@) =~= all);
        assert(all.skip(0) =~= all);
    }
    while i < keys.len()
        invariant
            names(keys@) == all,
            keys@.len() == all.len() == 10,
            i <= 10,
            recorded_instant(value@) == instant_at(value@, all.skip(i as int)),
        decreases 10 - i,
    {
        proof {
            assert(all.skip(i as int)[0] == keys@[i as int]@) by {
                assert(names(keys@)[i as int] == keys@[i as int]@);
            }
            assert(all.skip(i as int).skip(1) =~= all.skip(i + 1));
        }
        match timestamp_from_number_value(value.get(keys[i])) {
            Some(instant) => {
                return Some(instant);
            },
            None => {},
        }
        i += 1;
    }
    None
}

/// The display name and the id of a model: a text names it, and an object
/// names and identifies it by its `id`.
pub open spec fn model_names(v: Option<JsonView>) -> (Option<Seq<char>>, Option<Seq<char>>) {
    match v {
        Some(JsonView::Text(_)) => (trimmed_text(v), None),
        Some(JsonView::Object(_)) => {
            let id = trimmed_text(member(v->Some_0, "id"@));
            (id, id)
        },
        _ => (None, None),
    }
}

fn owned(text: Option<&str>) -> (copy: Option<String>)
    ensures
        opt_text(copy) == opt_view(text),
{
    match text {
        Some(t) => Some(t.to_owned()),
        None => None,
    }
}

/// Reads the display name and the id of a model.
pub fn model_from_value(value: Option<&Json>) -> (model: (Option<String>, Option<String>))
    ensures
        opt_text(model.0) == model_names(opt_json(value)).0,
        opt_text(model.1) == model_names(opt_json(value)).1,
{
    match value {
        Some(Json::Text(_)) => (owned(nonblank(value)), None),
        Some(json) => if json.is_object() {
            let id = nonblank(json.get("id"));
            (owned(id), owned(id))
        } else {
            (None, None)
        },
        None => (None, None),
    }
}

pub open spec fn run_id_keys() -> Seq<Seq<char>> {
    seq!["runId"@, "run_id"@]
}

pub open spec fn agent_id_keys() -> Seq<Seq<char>> {
    seq!["agentId"@, "agent_id"@]
}

/// The run that an object names.
pub open spec fn run_id(v: JsonView) -> Option<Seq<char>> {
    text_at(v, run_id_keys())
}

/// The agent that an object names.
pub open spec fn agent_id(v: JsonView) -> Option<Seq<char>> {
    text_at(v, agent_id_keys())
}

pub(crate) fn run_id_of(value: &Json) -> (id: Option<String>)
    ensures
        opt_text(id) == run_id(value@),
{
    let keys = ["runId", "run_id"];
    proof {
        assert(names(keys@) =~= run_id_keys());
    }
    json_string(value, &keys)
}

pub(crate) fn agent_id_of(value: &Json) -> (id: Option<String>)
    ensures
        opt_text(id) == agent_id(value@),
{
    let keys = ["agentId", "agent_id"];
    proof {
        assert(names(keys@) =~= agent_id_keys());
    }
    json_string(value, &keys)
}

/// The usage record of an SDK run: its usage object, its instant and its model
/// must be there.
pub open spec fn sdk_run_record(
    v: JsonView,
    fallback_session: Seq<char>,
    project_path: Seq<char>,
) -> Option<RecordView> {
    let run = text_or(run_id(v), fallback_session);
    let agent = text_or(agent_id(v), fallback_session);
    let (display, model_id) = model_names(member(v, "model"@));
    match (
        usage_in_opt(either(member(v, "usage"@), member(v, "usage_json"@))),
        recorded_instant(v),
        either(display, model_id),
    ) {
        (Some(parsed), Some(timestamp), Some(model)) => Some(
            RecordView {
                timestamp,
                session_id: if agent.len() == 0 {
                    run
                } else {
                    agent
                },
                message_id: run,
                model,
                model_id,
                usage: parsed.usage,
                cost_usd: parsed.cost_usd,
                project_path,
            },
        ),
        _ => None,
    }
}

/// Reads one SDK `runs` row or `runs.ndjson` document.
pub fn record_from_sdk_run(value: &Json, fallback_session: &str, project_path: &str) -> (record:
    Option<CursorUsageRecord>)
    ensures
        opt_record(record) == sdk_run_record(value@, fallback_session@, project_path@),
{
    let run = match run_id_of(value) {
        Some(id) => id,
        None => fallback_session.to_owned(),
    };
    let agent = match agent_id_of(value) {
        Some(id) => id,
        None => fallback_session.to_owned(),
    };
    let session_id = if agent.as_str().is_empty() {
        run.clone()
    } else {
        agent
    };
    let (display, model_id) = model_from_value(value.get("model"));
    let usage_value = match value.get("usage") {
        Some(usage) => Some(usage),
        None => value.get("usage_json"),
    };
    let parsed = match usage_value {
        Some(usage) => match parse_usage_value(usage) {
            Some(parsed) => parsed,
            None => {
                return None;
            },
        },
        None => {
            return None;
        },
    };
    let timestamp: i64 = match timestamp_from_value(value) {
        Some(timestamp) => timestamp,
        None => {
            return None;
        },
    };
    let model = match display {
        Some(model) => model,
        None => match copy_opt(&model_id) {
            Some(model) => model,
            None => {
                return None;
            },
        },
    };
    Some(
        CursorUsageRecord {
            timestamp,
            session_id,
            message_id: run,
            model,
            model_id,
            usage: parsed.usage,
            cost_usd: parsed.cost_usd,
            project_path: project_path.to_owned(),
        },
    )
}

/// What a value takes over from the values around it. The model that a hook
/// names and the model that a chat last used are kept apart: a model id says
/// more than the latter.
#[derive(Debug)]
pub struct InheritedIdentity {
    pub session: String,
    pub pin_session: bool,
    pub model: Option<String>,
    pub model_id: Option<String>,
    pub used_model: Option<String>,
    pub timestamp: Option<i64>,
    pub project_path: String,
}

/// The mathematical view of an inherited identity.
#[verifier::ext_equal]
pub struct IdentityView {
    pub session: Seq<char>,
    pub pin_session: bool,
    pub model: Option<Seq<char>>,
    pub model_id: Option<Seq<char>>,
    pub used_model: Option<Seq<char>>,
    pub timestamp: Option<i64>,
    pub project_path: Seq<char>,
}

impl View for InheritedIdentity {
    type V = IdentityView;

    open spec fn view(&self) -> IdentityView {
        IdentityView {
            session: self.session@,
            pin_session: self.pin_session,
            model: opt_text(self.model),
            model_id: opt_text(self.model_id),
            used_model: opt_text(self.used_model),
            timestamp: self.timestamp,
            project_path: self.project_path@,
        }
    }
}

impl InheritedIdentity {
    fn duplicate(&self) -> (copy: InheritedIdentity)
        ensures
            copy@ == self@,
    {
        InheritedIdentity {
            session: self.session.clone(),
            pin_session: self.pin_session,
            model: copy_opt(&self.model),
            model_id: copy_opt(&self.model_id),
            used_model: copy_opt(&self.used_model),
            timestamp: self.timestamp,
            project_path: self.project_path.clone(),
        }
    }
}

pub open spec fn session_keys() -> Seq<Seq<char>> {
    seq![
        "conversation_id"@,
        "conversationId"@,
        "session_id"@,
        "sessionId"@,
        "agentId"@,
        "agent_id"@,
    ]
}

pub open spec fn conversation_keys() -> Seq<Seq<char>> {
    seq!["conversation_id"@, "conversationId"@, "session_id"@, "sessionId"@]
}

pub open spec fn message_keys() -> Seq<Seq<char>> {
    seq!["generation_id"@, "generationId"@, "requestId"@, "id"@, "runId"@, "run_id"@]
}

pub open spec fn model_id_keys() -> Seq<Seq<char>> {
    seq!["model_id"@, "modelId"@]
}

pub open spec fn used_model_keys() -> Seq<Seq<char>> {
    seq!["lastUsedModel"@, "last_used_model"@, "modelName"@]
}

/// The member of a value that may be absent.
pub open spec fn member_of(v: Option<JsonView>, key: Seq<char>) -> Option<JsonView> {
    match v {
        Some(json) => member(json, key),
        None => None,
    }
}

/// The model that an object says was used last, or the one that its provider
/// options name.
pub open spec fn used_model(v: JsonView) -> Option<Seq<char>> {
    either(
        text_at(v, used_model_keys()),
        trimmed_text(
            member_of(member_of(member(v, "providerOptions"@), "cursor"@), "modelName"@),
        ),
    )
}

/// The identity that holds for a value: what it names itself, else what it
/// inherits. A pinned session is never replaced.
pub open spec fn inherit(v: JsonView, inherited: IdentityView) -> IdentityView {
    let (display, object_id) = model_names(member(v, "model"@));
    IdentityView {
        session: if inherited.pin_session {
            inherited.session
        } else {
            text_or(text_at(v, session_keys()), inherited.session)
        },
        pin_session: inherited.pin_session,
        model: either(display, inherited.model),
        model_id: either(either(object_id, text_at(v, model_id_keys())), inherited.model_id),
        used_model: either(used_model(v), inherited.used_model),
        timestamp: either(recorded_instant(v), inherited.timestamp),
        project_path: inherited.project_path,
    }
}

fn model_id_of(value: &Json) -> (id: Option<String>)
    ensures
        opt_text(id) == text_at(value@, model_id_keys()),
{
    let keys = ["model_id", "modelId"];
    proof {
        assert(names(keys@) =~= model_id_keys());
    }
    json_string(value, &keys)
}

fn used_model_of(value: &Json) -> (model: Option<String>)
    ensures
        opt_text(model) == used_model(value@),
{
    let keys = ["lastUsedModel", "last_used_model", "modelName"];
    proof {
        assert(names(keys@) =~= used_model_keys());
    }
    match json_string(value, &keys) {
        Some(model) => Some(model),
        None => match value.get("providerOptions") {
            Some(options) => match options.get("cursor") {
                Some(cursor) => owned(nonblank(cursor.get("modelName"))),
                None => None,
            },
            None => None,
        },
    }
}

/// Takes over the identity that a value names itself.
pub fn inherit_identity(value: &Json, inherited: InheritedIdentity) -> (identity:
    InheritedIdentity)
    ensures
        identity@ == inherit(value@, inherited@),
{
    let mut identity = inherited;
    if !identity.pin_session {
        let keys = [
            "conversation_id",
            "conversationId",
            "session_id",
            "sessionId",
            "agentId",
            "agent_id",
        ];
        proof {
            assert(names(keys@) =~= session_keys());
        }
        match json_string(value, &keys) {
            Some(session) => {
                identity.session = session;
            },
            None => {},
        }
    }
    let (display, object_id) = model_from_value(value.get("model"));
    match display {
        Some(model) => {
            identity.model = Some(model);
        },
        None => {},
    }
    let model_id = match object_id {
        Some(id) => Some(id),
        None => model_id_of(value),
    };
    match model_id {
        Some(id) => {
            identity.model_id = Some(id);
        },
        None => {},
    }
    match used_model_of(value) {
        Some(model) => {
            identity.used_model = Some(model);
        },
        None => {},
    }
    match timestamp_from_value(value) {
        Some(timestamp) => {
            identity.timestamp = Some(timestamp);
        },
        None => {},
    }
    identity
}

/// The usage record of a hook payload or of a message: its counts stand in the
/// value itself, in its `usage` or in its `tokenCount`, and an instant and a
/// model must be there or be inherited. The label is the model that the value
/// names, else its own model id, else the inherited model, else the inherited
/// model id, else the model that was last used.
pub open spec fn payload_record(v: JsonView, inherited: IdentityView) -> Option<RecordView> {
    let (display, object_id) = model_names(member(v, "model"@));
    let own_id = either(object_id, text_at(v, model_id_keys()));
    let model_id = either(own_id, inherited.model_id);
    let session_id = if inherited.pin_session {
        inherited.session
    } else {
        text_or(text_at(v, conversation_keys()), inherited.session)
    };
    let model = either(
        either(display, own_id),
        either(inherited.model, either(inherited.model_id, inherited.used_model)),
    );
    match (
        either(
            either(usage_in(v), usage_in_opt(member(v, "usage"@))),
            usage_in_opt(member(v, "tokenCount"@)),
        ),
        either(recorded_instant(v), inherited.timestamp),
    ) {
        (Some(parsed), Some(timestamp)) => match model {
            Some(name) => if name.len() > 0 {
                Some(
                    RecordView {
                        timestamp,
                        session_id,
                        message_id: text_or(text_at(v, message_keys()), session_id + ":usage"@),
                        model: name,
                        model_id,
                        usage: parsed.usage,
                        cost_usd: parsed.cost_usd,
                        project_path: inherited.project_path,
                    },
                )
            } else {
                None
            },
            None => None,
        },
        _ => None,
    }
}

/// Reads a hook payload or a message with token counts.
pub fn record_from_inherited_payload(value: &Json, inherited: &InheritedIdentity) -> (record:
    Option<CursorUsageRecord>)
    ensures
        opt_record(record) == payload_record(value@, inherited@),
{
    let own = match parse_usage_value(value) {
        Some(parsed) => Some(parsed),
        None => match value.get("usage") {
            Some(usage) => parse_usage_value(usage),
            None => None,
        },
    };
    let counted = match own {
        Some(parsed) => Some(parsed),
        None => match value.get("tokenCount") {
            Some(usage) => parse_usage_value(usage),
            None => None,
        },
    };
    let parsed = match counted {
        Some(parsed) => parsed,
        None => {
            return None;
        },
    };
    let timestamp: i64 = match timestamp_from_value(value) {
        Some(timestamp) => timestamp,
        None => match inherited.timestamp {
            Some(timestamp) => timestamp,
            None => {
                return None;
            },
        },
    };
    let (display, object_id) = model_from_value(value.get("model"));
    let own_id = match object_id {
        Some(id) => Some(id),
        None => model_id_of(value),
    };
    let own_label = match display {
        Some(model) => Some(model),
        None => copy_opt(&own_id),
    };
    let label = match own_label {
        Some(model) => Some(model),
        None => match copy_opt(&inherited.model) {
            Some(model) => Some(model),
            None => match copy_opt(&inherited.model_id) {
                Some(id) => Some(id),
                None => copy_opt(&inherited.used_model),
            },
        },
    };
    let model = match label {
        Some(model) => model,
        None => {
            return None;
        },
    };
    let model_id = match own_id {
        Some(id) => Some(id),
        None => copy_opt(&inherited.model_id),
    };
    if model.as_str().is_empty() {
        return None;
    }
    let session_id = if inherited.pin_session {
        inherited.session.clone()
    } else {
        let keys = ["conversation_id", "conversationId", "session_id", "sessionId"];
        proof {
            assert(names(keys@) =~= conversation_keys());
        }
        match json_string(value, &keys) {
            Some(session) => session,
            None => inherited.session.clone(),
        }
    };
    let keys = ["generation_id", "generationId", "requestId", "id", "runId", "run_id"];
    proof {
        assert(names(keys@) =~= message_keys());
    }
    let message_id = match json_string(value, &keys) {
        Some(id) => id,
        None => session_id.clone().concat(":usage"),
    };
    Some(
        CursorUsageRecord {
            timestamp,
            session_id,
            message_id,
            model,
            model_id,
            usage: parsed.usage,
            cost_usd: parsed.cost_usd,
            project_path: inherited.project_path.clone(),
        },
    )
}

/// The record that a value itself is, apart from the values it holds.
pub open spec fn own_record(v: JsonView, identity: IdentityView) -> Option<RecordView> {
    either(
        sdk_run_record(v, identity.session, identity.project_path),
        payload_record(v, identity),
    )
}

/// The records of a JSON tree, in the order of the tree: a value that is a
/// record itself is not searched further.
pub open spec fn tree_records(v: JsonView, inherited: IdentityView) -> Seq<RecordView>
    decreases v, child_count(v) + 1,
{
    let identity = inherit(v, inherited);
    match own_record(v, identity) {
        Some(record) => seq![record],
        None => child_records(v, identity, child_count(v)),
    }
}

/// The records of the first `n` values that `v` holds.
pub open spec fn child_records(v: JsonView, identity: IdentityView, n: nat) -> Seq<RecordView>
    decreases v, n,
{
    if n == 0 || n > child_count(v) {
        Seq::empty()
    } else {
        proof {
            lemma_child_is_smaller(v, n - 1);
        }
        child_records(v, identity, (n - 1) as nat) + tree_records(child(v, n - 1), identity)
    }
}

fn collect_child(
    value: &Json,
    held: &Json,
    n: usize,
    identity: &InheritedIdentity,
    records: &mut Vec<CursorUsageRecord>,
)
    requires
        n < child_count(value@),
        held@ == child(value@, n as int),
    ensures
        record_views(final(records)@) == record_views(old(records)@) + tree_records(
            held@,
            identity@,
        ),
    decreases value@, 0nat,
{
    proof {
        lemma_child_is_smaller(value@, n as int);
    }
    collect_records(held, identity.duplicate(), records);
}

/// Appends the records of a JSON tree.
pub fn collect_records(
    value: &Json,
    inherited: InheritedIdentity,
    records: &mut Vec<CursorUsageRecord>,
)
    ensures
        record_views(final(records)@) == record_views(old(records)@) + tree_records(
            value@,
            inherited@,
        ),
    decreases value@, 1nat,
{
    let ghost before = record_views(records@);
    let identity = inherit_identity(value, inherited);
    let own = match record_from_sdk_run(
        value,
        identity.session.as_str(),
        identity.project_path.as_str(),
    ) {
        Some(record) => Some(record),
        None => record_from_inherited_payload(value, &identity),
    };
    match own {
        Some(record) => {
            records.push(record);
            proof {
                assert(record_views(records@) =~= before + seq![record@]);
            }
            return ;
        },
        None => {},
    }
    proof {
        assert(before + child_records(value@, identity@, 0) =~= before);
    }
    match value {
        Json::Object(members) => {
            let mut i: usize = 0;
            while i < members.len()
                invariant
                    *value == Json::Object(*members),
                    i <= members@.len(),
                    record_views(records@) == before + child_records(
                        value@,
                        identity@,
                        i as nat,
                    ),
                decreases members@.len() - i,
            {
                collect_child(value, &members[i].value, i, &identity, records);
                proof {
                    assert(before + (child_records(value@, identity@, i as nat) + tree_records(
                        child(value@, i as int),
                        identity@,
                    )) =~= (before + child_records(value@, identity@, i as nat)) + tree_records(
                        child(value@, i as int),
                        identity@,
                    ));
                }
                i += 1;
            }
        },
        Json::Array(items) => {
            let mut i: usize = 0;
            while i < items.len()
                invariant
                    *value == Json::Array(*items),
                    i <= items@.len(),
                    record_views(records@) == before + child_records(
                        value@,
                        identity@,
                        i as nat,
                    ),
                decreases items@.len() - i,
            {
                collect_child(value, &items[i], i, &identity, records);
                proof {
                    assert(before + (child_records(value@, identity@, i as nat) + tree_records(
                        child(value@, i as int),
                        identity@,
                    )) =~= (before + child_records(value@, identity@, i as nat)) + tree_records(
                        child(value@, i as int),
                        identity@,
                    ));
                }
                i += 1;
            }
        },
        _ => {},
    }
}

/// The identity at the root of a tree that is read from a file.
pub open spec fn root_identity(session: Seq<char>, project_path: Seq<char>) -> IdentityView {
    IdentityView {
        session,
        pin_session: false,
        model: None,
        model_id: None,
        used_model: None,
        timestamp: None,
        project_path,
    }
}

/// The records of a JSON tree from a file with the given identity.
pub open spec fn json_records(
    v: JsonView,
    fallback_session: Seq<char>,
    project_path: Seq<char>,
) -> Seq<RecordView> {
    tree_records(v, root_identity(fallback_session, project_path))
}

/// Walks a JSON tree for SDK runs and hook or blob usage payloads.
pub fn records_from_json_value(
    value: &Json,
    fallback_session: &str,
    project_path: &str,
) -> (records: Vec<CursorUsageRecord>)
    ensures
        record_views(records@) == json_records(value@, fallback_session@, project_path@),
{
    let mut records: Vec<CursorUsageRecord> = Vec::new();
    proof {
        assert(record_views(records@) =~= Seq::<RecordView>::empty());
    }
    collect_records(
        value,
        InheritedIdentity {
            session: fallback_session.to_owned(),
            pin_session: false,
            model: None,
            model_id: None,
            used_model: None,
            timestamp: None,
            project_path: project_path.to_owned(),
        },
        &mut records,
    );
    proof {
        let all = json_records(value@, fallback_session@, project_path@);
        assert(Seq::<RecordView>::empty() + all =~= all);
    }
    records
}

/// Whether a record carries a token count that is not zero, names a model and
/// belongs to the project.
pub open spec fn carries_usage(record: RecordView, project_path: Seq<char>) -> bool {
    &&& has_tokens(record.usage)
    &&& record.model.len() > 0
    &&& record.project_path == project_path
}

/// Whether each of the records carries usage of the project.
pub open spec fn all_carry_usage(records: Seq<RecordView>, project_path: Seq<char>) -> bool {
    forall|i: int| 0 <= i < records.len() ==> carries_usage(#[trigger] records[i], project_path)
}

/// What is read of a run carries usage.
pub proof fn law_sdk_run_carries_usage(
    v: JsonView,
    fallback_session: Seq<char>,
    project_path: Seq<char>,
)
    ensures
        sdk_run_record(v, fallback_session, project_path) matches Some(record) ==> carries_usage(
            record,
            project_path,
        ),
{
}

/// Only records that carry token counts are read from a tree, and each names a
/// model and belongs to the given project.
pub proof fn law_tree_records_carry_usage(v: JsonView, inherited: IdentityView)
    ensures
        all_carry_usage(tree_records(v, inherited), inherited.project_path),
    decreases v, child_count(v) + 1,
{
    let identity = inherit(v, inherited);
    match own_record(v, identity) {
        Some(record) => {},
        None => {
            lemma_child_records_carry_usage(v, identity, child_count(v));
        },
    }
}

proof fn lemma_child_records_carry_usage(v: JsonView, identity: IdentityView, n: nat)
    ensures
        all_carry_usage(child_records(v, identity, n), identity.project_path),
    decreases v, n,
{
    if n > 0 && n <= child_count(v) {
        lemma_child_is_smaller(v, n - 1);
        lemma_child_records_carry_usage(v, identity, (n - 1) as nat);
        law_tree_records_carry_usage(child(v, n - 1), identity);
        lemma_carry_usage_append(
            child_records(v, identity, (n - 1) as nat),
            tree_records(child(v, n - 1), identity),
            identity.project_path,
        );
    }
}

/// Lists of records that carry usage do so together.
pub proof fn lemma_carry_usage_append(
    a: Seq<RecordView>,
    b: Seq<RecordView>,
    project_path: Seq<char>,
)
    requires
        all_carry_usage(a, project_path),
        all_carry_usage(b, project_path),
    ensures
        all_carry_usage(a + b, project_path),
{
    assert forall|i: int| 0 <= i < (a + b).len() implies carries_usage(
        #[trigger] (a + b)[i],
        project_path,
    ) by {
        if i < a.len() {
            assert(carries_usage(a[i], project_path));
        } else {
            assert(carries_usage(b[i - a.len()], project_path));
        }
    }
}

/// Whether two records differ at most in their session and message.
pub open spec fn same_turn_usage(a: RecordView, b: RecordView) -> bool {
    &&& a.timestamp == b.timestamp
    &&& a.model == b.model
    &&& a.model_id == b.model_id
    &&& a.usage == b.usage
    &&& a.cost_usd == b.cost_usd
    &&& a.project_path == b.project_path
}

/// Whether the records of two lists differ at most in their sessions and
/// messages.
pub open spec fn same_usage(a: Seq<RecordView>, b: Seq<RecordView>) -> bool {
    &&& a.len() == b.len()
    &&& forall|i: int| 0 <= i < a.len() ==> same_turn_usage(#[trigger] a[i], b[i])
}

/// Whether two identities differ at most in their session.
pub open spec fn same_but_session(a: IdentityView, b: IdentityView) -> bool {
    &&& a.model == b.model
    &&& a.model_id == b.model_id
    &&& a.used_model == b.used_model
    &&& a.timestamp == b.timestamp
    &&& a.project_path == b.project_path
}

/// The session that a tree inherits, pinned or not, changes no count: the tree
/// has the same records but for their sessions and messages.
pub proof fn law_session_changes_no_count(v: JsonView, a: IdentityView, b: IdentityView)
    requires
        same_but_session(a, b),
    ensures
        same_usage(tree_records(v, a), tree_records(v, b)),
    decreases v, child_count(v) + 1,
{
    let left = inherit(v, a);
    let right = inherit(v, b);
    assert(same_but_session(left, right));
    match own_record(v, left) {
        Some(record) => {
            assert(own_record(v, right) matches Some(other) && same_turn_usage(record, other));
        },
        None => {
            assert(own_record(v, right) is None);
            lemma_children_have_same_usage(v, left, right, child_count(v));
        },
    }
}

proof fn lemma_children_have_same_usage(v: JsonView, a: IdentityView, b: IdentityView, n: nat)
    requires
        same_but_session(a, b),
    ensures
        same_usage(child_records(v, a, n), child_records(v, b, n)),
    decreases v, n,
{
    if n > 0 && n <= child_count(v) {
        lemma_child_is_smaller(v, n - 1);
        lemma_children_have_same_usage(v, a, b, (n - 1) as nat);
        law_session_changes_no_count(child(v, n - 1), a, b);
    }
}

/// The label of a payload is its `model` where it names one, else its model
/// id, else the inherited model, else the inherited model id, else the model
/// that was last used: a model id that is only inherited labels nothing that
/// inherits a model, and the model that was last used labels nothing that has
/// or inherits a model id.
pub proof fn law_payload_label_is_its_model(v: JsonView, inherited: IdentityView)
    ensures
        payload_record(v, inherited) matches Some(record) ==> {
            let (display, object_id) = model_names(member(v, "model"@));
            let own_id = either(object_id, text_at(v, model_id_keys()));
            &&& display matches Some(label) ==> record.model == label
            &&& display is None ==> (own_id matches Some(id) ==> record.model == id)
            &&& display is None && own_id is None ==> (inherited.model matches Some(label) ==>
                record.model == label)
            &&& display is None && own_id is None && inherited.model is None ==> (
            inherited.model_id matches Some(id) ==> record.model == id)
            &&& display is None && own_id is None && inherited.model is None
                && inherited.model_id is None ==> inherited.used_model == Some(record.model)
            &&& record.model_id == either(own_id, inherited.model_id)
        },
{
}

} // verus!
