//! Laws of usage records: what a run, a hook payload or a message says itself,
//! and what it takes from the values around it.

use vstd::prelude::*;

use crate::codec::coerced;
use crate::field_laws::{
    law_first_count_counts, law_first_instant_counts, law_first_text_counts,
};
use crate::json::{child, child_count, lemma_child_is_smaller, member, text_at, JsonView};
use crate::parser::{
    agent_id, agent_id_keys, child_records, conversation_keys, inherit, json_records, message_keys,
    model_id_keys, model_names, own_record, payload_record, recorded_instant, root_identity,
    run_id, run_id_keys, sdk_run_record, session_keys, tree_records, used_model, used_model_keys,
    IdentityView, RecordView,
};
use crate::store::{meta_model_keys, store_meta, store_records, StoreMetaView};
use crate::text::trimmed;
use crate::usage::{input_keys, usage_in, ParsedUsage};

verus! {

/// The usage of a record, with its recorded amount.
pub open spec fn usage_of(record: RecordView) -> ParsedUsage {
    ParsedUsage { usage: record.usage, cost_usd: record.cost_usd }
}

/// The run and the agent of an object are the texts under their two names each.
pub proof fn law_run_and_agent_are_named(v: JsonView)
    ensures
        run_id(v) == text_at(v, seq!["runId"@, "run_id"@]),
        agent_id(v) == text_at(v, seq!["agentId"@, "agent_id"@]),
{
    assert(run_id_keys() =~= seq!["runId"@, "run_id"@]);
    assert(agent_id_keys() =~= seq!["agentId"@, "agent_id"@]);
}

/// The record of a run has the usage, the instant and the model that the run
/// itself records, the run as its message, and the agent as its session. A run
/// without one of usage, instant and model has no record.
pub proof fn law_run_record_says_what_the_run_says(
    v: JsonView,
    fallback_session: Seq<char>,
    project_path: Seq<char>,
)
    ensures
        ({
            let usage = match (member(v, "usage"@), member(v, "usage_json"@)) {
                (Some(u), _) => usage_in(u),
                (None, Some(u)) => usage_in(u),
                (None, None) => None,
            };
            let (display, id) = model_names(member(v, "model"@));
            let run = text_at(v, seq!["runId"@, "run_id"@]);
            let agent = text_at(v, seq!["agentId"@, "agent_id"@]);
            match sdk_run_record(v, fallback_session, project_path) {
                None => usage is None || recorded_instant(v) is None || (display is None
                    && id is None),
                Some(record) => {
                    &&& usage == Some(usage_of(record))
                    &&& recorded_instant(v) == Some(record.timestamp)
                    &&& display is Some ==> display == Some(record.model)
                    &&& display is None ==> id == Some(record.model)
                    &&& record.model_id == id
                    &&& run is Some ==> run == Some(record.message_id)
                    &&& run is None ==> record.message_id == fallback_session
                    &&& agent matches Some(a) ==> (a.len() > 0 ==> record.session_id == a)
                    &&& agent is None && fallback_session.len() > 0 ==> record.session_id
                        == fallback_session
                    &&& agent is None && fallback_session.len() == 0 ==> record.session_id
                        == record.message_id
                    &&& record.project_path == project_path
                },
            }
        }),
{
    law_run_and_agent_are_named(v);
}

/// The model id that an object names: the `id` of its model, else the text
/// under one of the names for it.
pub open spec fn id_named_by(v: JsonView) -> Option<Seq<char>> {
    match model_names(member(v, "model"@)).1 {
        Some(id) => Some(id),
        None => text_at(v, seq!["model_id"@, "modelId"@]),
    }
}

/// The model that an object says was used last is the text under one of the
/// three names for it, else the model name among its provider options.
pub proof fn law_used_model_is_named(v: JsonView)
    ensures
        ({
            let named = text_at(v, seq!["lastUsedModel"@, "last_used_model"@, "modelName"@]);
            &&& named is Some ==> used_model(v) == named
            &&& named is None ==> match member(v, "providerOptions"@) {
                Some(options) => match member(options, "cursor"@) {
                    Some(cursor) => match member(cursor, "modelName"@) {
                        Some(JsonView::Text(raw)) => used_model(v) == (if trimmed(raw).len() > 0 {
                            Some(trimmed(raw))
                        } else {
                            None
                        }),
                        _ => used_model(v) is None,
                    },
                    None => used_model(v) is None,
                },
                None => used_model(v) is None,
            }
        }),
{
    assert(used_model_keys() =~= seq!["lastUsedModel"@, "last_used_model"@, "modelName"@]);
}

/// A value hands on what it names itself, and what it inherits where it names
/// nothing. A pinned session is handed on as it is.
pub proof fn law_values_hand_on_what_they_name(v: JsonView, inherited: IdentityView)
    ensures
        ({
            let identity = inherit(v, inherited);
            let display = model_names(member(v, "model"@)).0;
            let session = text_at(
                v,
                seq![
                    "conversation_id"@,
                    "conversationId"@,
                    "session_id"@,
                    "sessionId"@,
                    "agentId"@,
                    "agent_id"@,
                ],
            );
            &&& recorded_instant(v) is Some ==> identity.timestamp == recorded_instant(v)
            &&& recorded_instant(v) is None ==> identity.timestamp == inherited.timestamp
            &&& display is Some ==> identity.model == display
            &&& display is None ==> identity.model == inherited.model
            &&& id_named_by(v) is Some ==> identity.model_id == id_named_by(v)
            &&& id_named_by(v) is None ==> identity.model_id == inherited.model_id
            &&& used_model(v) is Some ==> identity.used_model == used_model(v)
            &&& used_model(v) is None ==> identity.used_model == inherited.used_model
            &&& inherited.pin_session || session is None ==> identity.session == inherited.session
            &&& !inherited.pin_session && session is Some ==> session == Some(identity.session)
            &&& identity.pin_session == inherited.pin_session
            &&& identity.project_path == inherited.project_path
        }),
{
    assert(session_keys() =~= seq![
        "conversation_id"@,
        "conversationId"@,
        "session_id"@,
        "sessionId"@,
        "agentId"@,
        "agent_id"@,
    ]);
    assert(model_id_keys() =~= seq!["model_id"@, "modelId"@]);
}

/// The usage that a payload carries: in itself, else in its `usage`, else in
/// its `tokenCount`.
pub open spec fn payload_usage(v: JsonView) -> Option<ParsedUsage> {
    if usage_in(v) is Some {
        usage_in(v)
    } else if member(v, "usage"@) is Some && usage_in(member(v, "usage"@)->0) is Some {
        usage_in(member(v, "usage"@)->0)
    } else if member(v, "tokenCount"@) is Some {
        usage_in(member(v, "tokenCount"@)->0)
    } else {
        None
    }
}

/// The record of a payload has the usage that the payload carries and the
/// instant that it records itself, whatever it inherits; only a payload that
/// records no instant has the inherited one. Its session and its message are
/// those that it names, else the inherited session and a message of that.
pub proof fn law_payload_record_says_what_the_payload_says(v: JsonView, inherited: IdentityView)
    ensures
        ({
            let session = text_at(
                v,
                seq!["conversation_id"@, "conversationId"@, "session_id"@, "sessionId"@],
            );
            let message = text_at(
                v,
                seq!["generation_id"@, "generationId"@, "requestId"@, "id"@, "runId"@, "run_id"@],
            );
            payload_record(v, inherited) matches Some(record) ==> {
                &&& payload_usage(v) == Some(usage_of(record))
                &&& recorded_instant(v) is Some ==> recorded_instant(v) == Some(record.timestamp)
                &&& recorded_instant(v) is None ==> inherited.timestamp == Some(record.timestamp)
                &&& inherited.pin_session || session is None ==> record.session_id
                    == inherited.session
                &&& !inherited.pin_session && session is Some ==> session == Some(
                    record.session_id,
                )
                &&& message is Some ==> message == Some(record.message_id)
                &&& message is None ==> record.message_id == record.session_id + ":usage"@
                &&& id_named_by(v) is Some ==> record.model_id == id_named_by(v)
                &&& id_named_by(v) is None ==> record.model_id == inherited.model_id
                &&& record.project_path == inherited.project_path
            }
        }),
{
    assert(conversation_keys() =~= seq![
        "conversation_id"@,
        "conversationId"@,
        "session_id"@,
        "sessionId"@,
    ]);
    assert(message_keys() =~= seq![
        "generation_id"@,
        "generationId"@,
        "requestId"@,
        "id"@,
        "runId"@,
        "run_id"@,
    ]);
    assert(model_id_keys() =~= seq!["model_id"@, "modelId"@]);
}

/// The label of a payload: its own names before inherited ones, a model before
/// a model id, and the model that was used last where there is neither.
pub open spec fn is_label(v: JsonView, inherited: IdentityView, label: Option<Seq<char>>) -> bool {
    let display = model_names(member(v, "model"@)).0;
    if display is Some {
        label == display
    } else if id_named_by(v) is Some {
        label == id_named_by(v)
    } else if inherited.model is Some {
        label == inherited.model
    } else if inherited.model_id is Some {
        label == inherited.model_id
    } else {
        label == inherited.used_model
    }
}

/// A payload has a record exactly where it carries usage, an instant is there
/// or inherited, and so is a label that is not empty; that label is the model
/// of the record.
pub proof fn law_payload_needs_usage_instant_and_label(
    v: JsonView,
    inherited: IdentityView,
    label: Option<Seq<char>>,
)
    requires
        is_label(v, inherited, label),
    ensures
        payload_record(v, inherited) is Some <==> payload_usage(v) is Some && (recorded_instant(
            v,
        ) is Some || inherited.timestamp is Some) && (label matches Some(name) && name.len() > 0),
        payload_record(v, inherited) matches Some(record) ==> label == Some(record.model),
{
    assert(model_id_keys() =~= seq!["model_id"@, "modelId"@]);
}

/// A value that is a run is read as a run, any other as a payload.
pub proof fn law_runs_come_before_payloads(v: JsonView, identity: IdentityView)
    ensures
        ({
            let run = sdk_run_record(v, identity.session, identity.project_path);
            &&& run is Some ==> own_record(v, identity) == run
            &&& run is None ==> own_record(v, identity) == payload_record(v, identity)
        }),
{
}

/// The value that is reached from `v` by going down by the given positions.
pub open spec fn value_at(v: JsonView, path: Seq<int>) -> JsonView
    decreases path.len(),
{
    if path.len() == 0 {
        v
    } else {
        value_at(child(v, path[0]), path.skip(1))
    }
}

/// Whether there is a value at each of the given positions.
pub open spec fn is_path(v: JsonView, path: Seq<int>) -> bool
    decreases path.len(),
{
    path.len() > 0 ==> 0 <= path[0] < child_count(v) && is_path(child(v, path[0]), path.skip(1))
}

/// The identity that holds for the value at the given positions.
pub open spec fn identity_along(
    v: JsonView,
    inherited: IdentityView,
    path: Seq<int>,
) -> IdentityView
    decreases path.len(),
{
    if path.len() == 0 {
        inherit(v, inherited)
    } else {
        identity_along(child(v, path[0]), inherit(v, inherited), path.skip(1))
    }
}

/// Whether the value at the given positions is a record itself.
pub open spec fn gives_record(
    v: JsonView,
    inherited: IdentityView,
    path: Seq<int>,
    record: RecordView,
) -> bool {
    own_record(value_at(v, path), identity_along(v, inherited, path)) == Some(record)
}

/// Whether the value at the given positions is a record, and no value around it
/// is one.
pub open spec fn gives_first_record(
    v: JsonView,
    inherited: IdentityView,
    path: Seq<int>,
    record: RecordView,
) -> bool {
    &&& is_path(v, path)
    &&& gives_record(v, inherited, path, record)
    &&& forall|k: int, other: RecordView|
        0 <= k < path.len() ==> !#[trigger] gives_record(v, inherited, path.take(k), other)
}

proof fn lemma_step_down(v: JsonView, inherited: IdentityView, n: int, rest: Seq<int>)
    ensures
        value_at(v, seq![n] + rest) == value_at(child(v, n), rest),
        identity_along(v, inherited, seq![n] + rest) == identity_along(
            child(v, n),
            inherit(v, inherited),
            rest,
        ),
        0 <= n < child_count(v) ==> is_path(v, seq![n] + rest) == is_path(child(v, n), rest),
        forall|k: int|
            0 <= k <= rest.len() ==> #[trigger] (seq![n] + rest).take(k + 1) == seq![n]
                + rest.take(k),
{
    let path = seq![n] + rest;
    assert(path.skip(1) =~= rest);
    assert forall|k: int| 0 <= k <= rest.len() implies #[trigger] path.take(k + 1) == seq![n]
        + rest.take(k) by {
        assert(path.take(k + 1) =~= seq![n] + rest.take(k));
    }
}

proof fn lemma_first_record_below(
    v: JsonView,
    inherited: IdentityView,
    n: int,
    rest: Seq<int>,
    record: RecordView,
)
    requires
        0 <= n < child_count(v),
        own_record(v, inherit(v, inherited)) is None,
    ensures
        gives_first_record(v, inherited, seq![n] + rest, record) <==> gives_first_record(
            child(v, n),
            inherit(v, inherited),
            rest,
            record,
        ),
{
    let path = seq![n] + rest;
    let held = child(v, n);
    let inner = inherit(v, inherited);
    lemma_step_down(v, inherited, n, rest);
    assert forall|k: int, other: RecordView|
        0 <= k < rest.len() implies gives_record(v, inherited, #[trigger] path.take(k + 1), other)
        == #[trigger] gives_record(held, inner, rest.take(k), other) by {
        lemma_step_down(v, inherited, n, rest.take(k));
        assert(path.take(k + 1) == seq![n] + rest.take(k));
    }
    if gives_first_record(v, inherited, path, record) {
        assert forall|k: int, other: RecordView|
            0 <= k < rest.len() implies !#[trigger] gives_record(
            held,
            inner,
            rest.take(k),
            other,
        ) by {
            assert(!gives_record(v, inherited, path.take(k + 1), other));
        }
    }
    if gives_first_record(held, inner, rest, record) {
        assert forall|k: int, other: RecordView|
            0 <= k < path.len() implies !#[trigger] gives_record(
            v,
            inherited,
            path.take(k),
            other,
        ) by {
            if k == 0 {
                assert(path.take(0) =~= Seq::empty());
            } else {
                assert(!gives_record(held, inner, rest.take(k - 1), other));
                assert(path.take((k - 1) + 1) == path.take(k));
            }
        }
    }
}

/// Each record of a tree is that of a value in it that is a record itself,
/// while no value around that one is.
pub proof fn law_tree_records_are_first_records(v: JsonView, inherited: IdentityView, i: int)
    requires
        0 <= i < tree_records(v, inherited).len(),
    ensures
        exists|path: Seq<int>| #[trigger]
            gives_first_record(v, inherited, path, tree_records(v, inherited)[i]),
    decreases v, child_count(v) + 1,
{
    let identity = inherit(v, inherited);
    let record = tree_records(v, inherited)[i];
    match own_record(v, identity) {
        Some(own) => {
            assert(gives_first_record(v, inherited, Seq::empty(), record));
        },
        None => {
            lemma_child_records_are_first_records(v, inherited, child_count(v), i);
        },
    }
}

proof fn lemma_child_records_are_first_records(
    v: JsonView,
    inherited: IdentityView,
    n: nat,
    i: int,
)
    requires
        own_record(v, inherit(v, inherited)) is None,
        0 <= i < child_records(v, inherit(v, inherited), n).len(),
    ensures
        exists|path: Seq<int>| #[trigger]
            gives_first_record(
                v,
                inherited,
                path,
                child_records(v, inherit(v, inherited), n)[i],
            ),
    decreases v, n,
{
    let identity = inherit(v, inherited);
    let before = child_records(v, identity, (n - 1) as nat);
    let record = child_records(v, identity, n)[i];
    if i < before.len() {
        lemma_child_records_are_first_records(v, inherited, (n - 1) as nat, i);
        assert(before[i] == record);
    } else {
        let held = child(v, n - 1);
        lemma_child_is_smaller(v, n - 1);
        law_tree_records_are_first_records(held, identity, i - before.len());
        assert(tree_records(held, identity)[i - before.len()] == record);
        let rest = choose|rest: Seq<int>| #[trigger]
            gives_first_record(held, identity, rest, record);
        lemma_first_record_below(v, inherited, n - 1, rest, record);
    }
}

/// Each value of a tree that is a record itself is counted, unless it stands in
/// one that is.
pub proof fn law_first_records_are_counted(
    v: JsonView,
    inherited: IdentityView,
    path: Seq<int>,
    record: RecordView,
)
    requires
        gives_first_record(v, inherited, path, record),
    ensures
        tree_records(v, inherited).contains(record),
    decreases path.len(),
{
    let identity = inherit(v, inherited);
    if path.len() == 0 {
        assert(tree_records(v, inherited) == seq![record]);
        assert(tree_records(v, inherited)[0] == record);
    } else {
        let n = path[0];
        let rest = path.skip(1);
        assert(own_record(v, identity) is None) by {
            assert(path.take(0) =~= Seq::empty());
            match own_record(v, identity) {
                Some(other) => {
                    assert(gives_record(v, inherited, path.take(0), other));
                },
                None => {},
            }
        }
        assert(path =~= seq![n] + rest);
        lemma_first_record_below(v, inherited, n, rest, record);
        law_first_records_are_counted(child(v, n), identity, rest, record);
        lemma_child_records_are_counted(v, identity, n, child_count(v), record);
    }
}

proof fn lemma_child_records_are_counted(
    v: JsonView,
    identity: IdentityView,
    at: int,
    n: nat,
    record: RecordView,
)
    requires
        0 <= at < n <= child_count(v),
        tree_records(child(v, at), identity).contains(record),
    ensures
        child_records(v, identity, n).contains(record),
    decreases n,
{
    let before = child_records(v, identity, (n - 1) as nat);
    let last = tree_records(child(v, n - 1), identity);
    let all = child_records(v, identity, n);
    if at < n - 1 {
        lemma_child_records_are_counted(v, identity, at, (n - 1) as nat, record);
        let k = choose|k: int| 0 <= k < before.len() && before[k] == record;
        assert(all[k] == record);
    } else {
        let k = choose|k: int| 0 <= k < last.len() && last[k] == record;
        assert(all[before.len() + k] == record);
    }
}

/// Whether `result` is what the nearest value names on the way down to the
/// given positions: the value there, else the one around it, and so on; and
/// what is inherited from outside where none of them names anything.
pub open spec fn is_nearest<T>(
    v: JsonView,
    path: Seq<int>,
    named: spec_fn(JsonView) -> Option<T>,
    outer: Option<T>,
    result: Option<T>,
) -> bool {
    ||| exists|k: int|
        0 <= k <= path.len() && result is Some && named(value_at(v, #[trigger] path.take(k)))
            == result && forall|j: int|
            k < j <= path.len() ==> named(value_at(v, #[trigger] path.take(j))) is None
    ||| result == outer && forall|j: int|
        0 <= j <= path.len() ==> named(value_at(v, #[trigger] path.take(j))) is None
}

spec fn nearest_of<T>(
    v: JsonView,
    path: Seq<int>,
    named: spec_fn(JsonView) -> Option<T>,
    outer: Option<T>,
) -> Option<T>
    decreases path.len(),
{
    let here = match named(v) {
        Some(t) => Some(t),
        None => outer,
    };
    if path.len() == 0 {
        here
    } else {
        nearest_of(child(v, path[0]), path.skip(1), named, here)
    }
}

proof fn lemma_nearest<T>(
    v: JsonView,
    path: Seq<int>,
    named: spec_fn(JsonView) -> Option<T>,
    outer: Option<T>,
)
    ensures
        is_nearest(v, path, named, outer, nearest_of(v, path, named, outer)),
    decreases path.len(),
{
    let result = nearest_of(v, path, named, outer);
    let here = match named(v) {
        Some(t) => Some(t),
        None => outer,
    };
    assert(path.take(0) =~= Seq::empty());
    assert(value_at(v, path.take(0)) == v);
    if path.len() == 0 {
        if named(v) is Some {
            assert(named(value_at(v, path.take(0))) == result);
        }
    } else {
        let held = child(v, path[0]);
        let rest = path.skip(1);
        lemma_nearest(held, rest, named, here);
        assert forall|j: int| 1 <= j <= path.len() implies value_at(v, #[trigger] path.take(j))
            == value_at(held, rest.take(j - 1)) by {
            assert(path.take(j).skip(1) =~= rest.take(j - 1));
        }
        if exists|k: int|
            0 <= k <= rest.len() && result is Some && named(value_at(held, #[trigger] rest.take(k)))
                == result && forall|j: int|
                k < j <= rest.len() ==> named(value_at(held, #[trigger] rest.take(j))) is None {
            let k = choose|k: int|
                0 <= k <= rest.len() && result is Some && named(
                    value_at(held, #[trigger] rest.take(k)),
                ) == result && forall|j: int|
                    k < j <= rest.len() ==> named(value_at(held, #[trigger] rest.take(j))) is None;
            assert(named(value_at(v, path.take(k + 1))) == result);
            assert forall|j: int| k + 1 < j <= path.len() implies named(
                value_at(v, #[trigger] path.take(j)),
            ) is None by {
                assert(named(value_at(held, rest.take(j - 1))) is None);
            }
        } else {
            assert(result == here);
            assert forall|j: int| 1 <= j <= path.len() implies named(
                value_at(v, #[trigger] path.take(j)),
            ) is None by {
                assert(named(value_at(held, rest.take(j - 1))) is None);
            }
            if named(v) is Some {
                assert(named(value_at(v, path.take(0))) == result);
            }
        }
    }
}

/// Where the value itself names something, the nearest name is its own,
/// whatever the values around it name.
pub proof fn law_own_name_is_nearest<T>(
    v: JsonView,
    path: Seq<int>,
    named: spec_fn(JsonView) -> Option<T>,
    outer: Option<T>,
    result: Option<T>,
)
    requires
        is_nearest(v, path, named, outer, result),
        named(value_at(v, path)) is Some,
    ensures
        result == named(value_at(v, path)),
{
    let n = path.len() as int;
    assert(path.take(n) =~= path);
    assert(named(value_at(v, path.take(n))) is Some);
}

proof fn lemma_identity_is_nearest(v: JsonView, inherited: IdentityView, path: Seq<int>)
    ensures
        ({
            let identity = identity_along(v, inherited, path);
            &&& identity.timestamp == nearest_of(
                v,
                path,
                |w: JsonView| recorded_instant(w),
                inherited.timestamp,
            )
            &&& identity.model == nearest_of(
                v,
                path,
                |w: JsonView| model_names(member(w, "model"@)).0,
                inherited.model,
            )
            &&& identity.model_id == nearest_of(
                v,
                path,
                |w: JsonView| id_named_by(w),
                inherited.model_id,
            )
            &&& identity.used_model == nearest_of(
                v,
                path,
                |w: JsonView| used_model(w),
                inherited.used_model,
            )
            &&& !inherited.pin_session ==> Some(identity.session) == nearest_of(
                v,
                path,
                |w: JsonView|
                    text_at(
                        w,
                        seq![
                            "conversation_id"@,
                            "conversationId"@,
                            "session_id"@,
                            "sessionId"@,
                            "agentId"@,
                            "agent_id"@,
                        ],
                    ),
                Some(inherited.session),
            )
            &&& inherited.pin_session ==> identity.session == inherited.session
            &&& identity.pin_session == inherited.pin_session
            &&& identity.project_path == inherited.project_path
        }),
    decreases path.len(),
{
    law_values_hand_on_what_they_name(v, inherited);
    if path.len() > 0 {
        lemma_identity_is_nearest(child(v, path[0]), inherit(v, inherited), path.skip(1));
    }
}

/// The identity that holds for a value in a tree is told by the nearest values
/// that name it: the instant, the model, the model id, the model that was used
/// last and the session, each for itself. A pinned session holds everywhere.
pub proof fn law_nearest_names_hold(v: JsonView, inherited: IdentityView, path: Seq<int>)
    ensures
        ({
            let identity = identity_along(v, inherited, path);
            &&& is_nearest(
                v,
                path,
                |w: JsonView| recorded_instant(w),
                inherited.timestamp,
                identity.timestamp,
            )
            &&& is_nearest(
                v,
                path,
                |w: JsonView| model_names(member(w, "model"@)).0,
                inherited.model,
                identity.model,
            )
            &&& is_nearest(
                v,
                path,
                |w: JsonView| id_named_by(w),
                inherited.model_id,
                identity.model_id,
            )
            &&& is_nearest(
                v,
                path,
                |w: JsonView| used_model(w),
                inherited.used_model,
                identity.used_model,
            )
            &&& !inherited.pin_session ==> is_nearest(
                v,
                path,
                |w: JsonView|
                    text_at(
                        w,
                        seq![
                            "conversation_id"@,
                            "conversationId"@,
                            "session_id"@,
                            "sessionId"@,
                            "agentId"@,
                            "agent_id"@,
                        ],
                    ),
                Some(inherited.session),
                Some(identity.session),
            )
            &&& inherited.pin_session ==> identity.session == inherited.session
            &&& identity.pin_session == inherited.pin_session
            &&& identity.project_path == inherited.project_path
        }),
{
    lemma_identity_is_nearest(v, inherited, path);
    lemma_nearest(v, path, |w: JsonView| recorded_instant(w), inherited.timestamp);
    lemma_nearest(
        v,
        path,
        |w: JsonView| model_names(member(w, "model"@)).0,
        inherited.model,
    );
    lemma_nearest(v, path, |w: JsonView| id_named_by(w), inherited.model_id);
    lemma_nearest(v, path, |w: JsonView| used_model(w), inherited.used_model);
    lemma_nearest(
        v,
        path,
        |w: JsonView|
            text_at(
                w,
                seq![
                    "conversation_id"@,
                    "conversationId"@,
                    "session_id"@,
                    "sessionId"@,
                    "agentId"@,
                    "agent_id"@,
                ],
            ),
        Some(inherited.session),
    );
}

/// Each record of a tree carries the usage of a value in the tree and has the
/// instant of that value where it records one, else the instant of the nearest
/// value around it that records one: what the values further out record is of
/// no matter.
pub proof fn law_records_are_dated_by_the_nearest_instant(
    v: JsonView,
    inherited: IdentityView,
    i: int,
)
    requires
        0 <= i < tree_records(v, inherited).len(),
    ensures
        exists|path: Seq<int>|
            {
                let record = tree_records(v, inherited)[i];
                let w = value_at(v, path);
                &&& #[trigger] is_path(v, path)
                &&& is_nearest(
                    v,
                    path,
                    |x: JsonView| recorded_instant(x),
                    inherited.timestamp,
                    Some(record.timestamp),
                )
                &&& recorded_instant(w) is Some ==> recorded_instant(w) == Some(record.timestamp)
                &&& {
                    ||| payload_usage(w) == Some(usage_of(record))
                    ||| member(w, "usage"@) is Some && usage_in(member(w, "usage"@)->0) == Some(
                        usage_of(record),
                    )
                    ||| member(w, "usage_json"@) is Some && usage_in(member(w, "usage_json"@)->0)
                        == Some(usage_of(record))
                }
                &&& record.project_path == inherited.project_path
            },
{
    let record = tree_records(v, inherited)[i];
    law_tree_records_are_first_records(v, inherited, i);
    let path = choose|path: Seq<int>| #[trigger] gives_first_record(v, inherited, path, record);
    let w = value_at(v, path);
    let identity = identity_along(v, inherited, path);
    law_nearest_names_hold(v, inherited, path);
    law_runs_come_before_payloads(w, identity);
    law_run_record_says_what_the_run_says(w, identity.session, identity.project_path);
    law_payload_record_says_what_the_payload_says(w, identity);
    if recorded_instant(w) is Some {
        law_own_name_is_nearest(
            v,
            path,
            |x: JsonView| recorded_instant(x),
            inherited.timestamp,
            identity.timestamp,
        );
    }
    assert(is_path(v, path));
}

proof fn lemma_same_children(v: JsonView, w: JsonView, identity: IdentityView, n: nat)
    requires
        n <= child_count(v),
        n <= child_count(w),
        forall|k: int| 0 <= k < n ==> #[trigger] child(v, k) == child(w, k),
    ensures
        child_records(v, identity, n) == child_records(w, identity, n),
    decreases n,
{
    if n > 0 {
        lemma_same_children(v, w, identity, (n - 1) as nat);
        assert(child(v, n - 1) == child(w, n - 1));
    }
}

proof fn lemma_children_append(
    a: Seq<JsonView>,
    b: Seq<JsonView>,
    identity: IdentityView,
    n: nat,
)
    requires
        n <= b.len(),
    ensures
        child_records(JsonView::Array(a + b), identity, a.len() + n) == child_records(
            JsonView::Array(a),
            identity,
            a.len(),
        ) + child_records(JsonView::Array(b), identity, n),
    decreases n,
{
    let all = JsonView::Array(a + b);
    let first = child_records(JsonView::Array(a), identity, a.len());
    if n == 0 {
        assert forall|k: int| 0 <= k < a.len() implies #[trigger] child(all, k) == child(
            JsonView::Array(a),
            k,
        ) by {}
        lemma_same_children(all, JsonView::Array(a), identity, a.len());
        assert(first + Seq::<RecordView>::empty() =~= first);
    } else {
        lemma_children_append(a, b, identity, (n - 1) as nat);
        assert(child(all, a.len() + n - 1) == child(JsonView::Array(b), n - 1));
        let before = child_records(JsonView::Array(b), identity, (n - 1) as nat);
        let last = tree_records(b[n - 1], identity);
        assert(first + before + last =~= first + (before + last));
    }
}

proof fn lemma_array_is_no_record(items: Seq<JsonView>, identity: IdentityView)
    ensures
        own_record(JsonView::Array(items), identity) is None,
        inherit(JsonView::Array(items), identity) == identity,
{
    let v = JsonView::Array(items);
    law_values_hand_on_what_they_name(v, identity);
    law_first_instant_counts(v);
    law_first_text_counts(v, session_keys());
    law_first_text_counts(v, model_id_keys());
    law_first_text_counts(v, used_model_keys());
    law_first_count_counts(v, input_keys());
    assert(text_at(v, session_keys()) is None);
    assert(text_at(v, model_id_keys()) is None);
    assert(text_at(v, used_model_keys()) is None);
    assert(recorded_instant(v) is None);
    assert(inherit(v, identity) =~= identity);
}

/// The records of an array are those of its items, one after the other.
pub proof fn law_arrays_are_read_item_by_item(
    a: Seq<JsonView>,
    b: Seq<JsonView>,
    inherited: IdentityView,
)
    ensures
        tree_records(JsonView::Array(a + b), inherited) == tree_records(
            JsonView::Array(a),
            inherited,
        ) + tree_records(JsonView::Array(b), inherited),
        forall|x: JsonView| #[trigger]
            tree_records(JsonView::Array(seq![x]), inherited) == tree_records(x, inherited),
{
    lemma_array_is_no_record(a + b, inherited);
    lemma_array_is_no_record(a, inherited);
    lemma_array_is_no_record(b, inherited);
    lemma_children_append(a, b, inherited, b.len());
    assert forall|x: JsonView| #[trigger] tree_records(JsonView::Array(seq![x]), inherited)
        == tree_records(x, inherited) by {
        let v = JsonView::Array(seq![x]);
        lemma_array_is_no_record(seq![x], inherited);
        assert(child(v, 0) == x);
        assert(child_records(v, inherited, 0) =~= Seq::empty());
        assert(child_records(v, inherited, 1) == child_records(v, inherited, 0) + tree_records(
            x,
            inherited,
        ));
        assert(Seq::<RecordView>::empty() + tree_records(x, inherited) =~= tree_records(
            x,
            inherited,
        ));
    }
}

/// The records of an object that is none itself are those of its values, in the
/// order of its members, with the identity that the object hands on.
pub proof fn law_objects_are_read_member_by_member(
    members: Seq<(Seq<char>, JsonView)>,
    inherited: IdentityView,
)
    ensures
        ({
            let v = JsonView::Object(members);
            let identity = inherit(v, inherited);
            match own_record(v, identity) {
                Some(record) => tree_records(v, inherited) == seq![record],
                None => tree_records(v, inherited) == tree_records(
                    JsonView::Array(Seq::new(members.len(), |i: int| members[i].1)),
                    identity,
                ),
            }
        }),
{
    let v = JsonView::Object(members);
    let identity = inherit(v, inherited);
    let values = Seq::new(members.len(), |i: int| members[i].1);
    lemma_array_is_no_record(values, identity);
    assert forall|k: int| 0 <= k < members.len() implies #[trigger] child(v, k) == child(
        JsonView::Array(values),
        k,
    ) by {}
    lemma_same_children(v, JsonView::Array(values), identity, members.len());
}

/// Values that hold no others give no records.
pub proof fn law_plain_values_give_no_records(v: JsonView, inherited: IdentityView)
    requires
        !(v is Object) && !(v is Array),
    ensures
        tree_records(v, inherited).len() == 0,
{
    law_first_count_counts(v, input_keys());
    assert(member(v, "usage"@) is None);
    assert(own_record(v, inherit(v, inherited)) is None);
}

/// At the root of a tree the session and the project are those of the file, and
/// nothing else is known.
pub proof fn law_root_knows_session_and_project(
    v: JsonView,
    session: Seq<char>,
    project_path: Seq<char>,
)
    ensures
        json_records(v, session, project_path) == tree_records(
            v,
            IdentityView {
                session,
                pin_session: false,
                model: None,
                model_id: None,
                used_model: None,
                timestamp: None,
                project_path,
            },
        ),
{
    assert(root_identity(session, project_path).model is None);
}

/// The metadata of a chat stands in the object that its `value` spells, where
/// that is an object, else in the row itself; it names an agent, a model that
/// was used last and an instant, or is none.
pub proof fn law_chat_metadata_is_read_from_its_value(v: JsonView, object: JsonView)
    requires
        match member(v, "value"@) {
            Some(inner) => object == (if coerced(inner) is Object {
                coerced(inner)
            } else {
                v
            }),
            None => v is Object && object == v,
        },
    ensures
        ({
            let agent = text_at(object, seq!["agentId"@, "agent_id"@]);
            let model = text_at(object, seq!["lastUsedModel"@, "last_used_model"@, "model"@]);
            let instant = recorded_instant(object);
            match store_meta(v) {
                Some(meta) => {
                    &&& agent is Some || model is Some || instant is Some
                    &&& meta.agent_id == agent
                    &&& meta.model == model
                    &&& meta.timestamp == instant
                },
                None => agent is None && model is None && instant is None,
            }
        }),
{
    law_run_and_agent_are_named(object);
    assert(meta_model_keys() =~= seq!["lastUsedModel"@, "last_used_model"@, "model"@]);
}

/// What is no object has no metadata.
pub proof fn law_only_objects_have_metadata(v: JsonView)
    requires
        !(v is Object),
    ensures
        store_meta(v) is None,
{
}

/// The records of a blob are those of its tree. The metadata of the chat tells
/// the model that was used last and the instant, and the session where that is
/// not pinned and the metadata names an agent.
pub proof fn law_blobs_inherit_the_metadata_of_their_chat(
    v: JsonView,
    fallback_session: Seq<char>,
    project_path: Seq<char>,
    meta: Option<StoreMetaView>,
)
    ensures
        store_records(v, fallback_session, project_path, meta, false) == tree_records(
            v,
            IdentityView {
                session: if meta is Some && meta->0.agent_id is Some && meta->0.agent_id->0.len()
                    > 0 {
                    meta->0.agent_id->0
                } else {
                    fallback_session
                },
                pin_session: false,
                model: None,
                model_id: None,
                used_model: if meta is Some {
                    meta->0.model
                } else {
                    None
                },
                timestamp: if meta is Some {
                    meta->0.timestamp
                } else {
                    None
                },
                project_path,
            },
        ),
{
}

/// With a pinned session a blob has the records that its tree has, each with
/// the session of the chat folder and otherwise as it is.
pub proof fn law_pinned_records_change_only_their_session(
    v: JsonView,
    fallback_session: Seq<char>,
    project_path: Seq<char>,
    meta: Option<StoreMetaView>,
)
    ensures
        ({
            let found = tree_records(
                v,
                IdentityView {
                    session: fallback_session,
                    pin_session: true,
                    model: None,
                    model_id: None,
                    used_model: if meta is Some {
                        meta->0.model
                    } else {
                        None
                    },
                    timestamp: if meta is Some {
                        meta->0.timestamp
                    } else {
                        None
                    },
                    project_path,
                },
            );
            let pinned = store_records(v, fallback_session, project_path, meta, true);
            &&& pinned.len() == found.len()
            &&& forall|i: int|
                0 <= i < found.len() ==> {
                    &&& (#[trigger] pinned[i]).session_id == fallback_session
                    &&& pinned[i].message_id == found[i].message_id
                    &&& pinned[i].timestamp == found[i].timestamp
                    &&& pinned[i].model == found[i].model
                    &&& pinned[i].model_id == found[i].model_id
                    &&& pinned[i].usage == found[i].usage
                    &&& pinned[i].cost_usd == found[i].cost_usd
                    &&& pinned[i].project_path == found[i].project_path
                }
        }),
{
}

} // verus!
