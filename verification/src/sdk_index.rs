//! SDK catalog: `runs` rows combined with the usage events of `run_events`.

use vstd::hash_map::StringHashMap;
use vstd::hash_set::StringHashSet;
use vstd::prelude::*;

use crate::codec::{json_text, parse_json};
use crate::json::{
    child, child_count, count_at, json_u64_keys, json_views, lemma_child_is_smaller,
    lemma_child_texts_are_no_longer, longest_text, member, names, opt_json, Json, JsonView,
};
use crate::parser::{
    agent_id, agent_id_of, all_carry_usage, carries_usage, copy_opt, either, json_records,
    law_sdk_run_carries_usage, law_tree_records_carry_usage, lemma_carry_usage_append,
    model_from_value, model_names, opt_record, record_from_sdk_run, record_views, recorded_instant,
    records_from_json_value, root_identity, run_id, run_id_of, sdk_run_record, text_or,
    timestamp_from_value, CursorUsageRecord, RecordView,
};
use crate::text::{decimal, decimal_text, text_eq};
use crate::usage::{parse_usage_value, usage_in, usage_in_opt};

verus! {

/// Whether a value is a usage event: its `type` is `usage` and it has a
/// `usage` member.
pub open spec fn usage_message(v: JsonView) -> bool {
    member(v, "type"@) == Some(JsonView::Text("usage"@)) && member(v, "usage"@) is Some
}

/// Whether a value is a usage event.
pub fn is_usage_message(value: &Json) -> (yes: bool)
    ensures
        yes == usage_message(value@),
{
    let typed = match value.get("type") {
        Some(kind) => match kind.as_str() {
            Some(text) => text_eq(text, "usage"),
            None => false,
        },
        None => false,
    };
    typed && value.get("usage").is_some()
}

/// The usage events of a JSON tree, in the order of the tree. A text that
/// spells JSON is searched as that JSON; a usage event is not searched further.
pub open spec fn usage_messages(v: JsonView) -> Seq<JsonView>
    decreases longest_text(v), v, child_count(v) + 1,
{
    if usage_message(v) {
        seq![v]
    } else {
        match v {
            JsonView::Text(text) => match json_text(text) {
                Some(inner) => if longest_text(inner) < text.len() {
                    usage_messages(inner)
                } else {
                    Seq::empty()
                },
                None => Seq::empty(),
            },
            _ => child_usage_messages(v, child_count(v)),
        }
    }
}

/// The usage events of the first `n` values that `v` holds.
pub open spec fn child_usage_messages(v: JsonView, n: nat) -> Seq<JsonView>
    decreases longest_text(v), v, n,
{
    if n == 0 || n > child_count(v) {
        Seq::empty()
    } else {
        proof {
            lemma_child_is_smaller(v, n - 1);
            lemma_child_texts_are_no_longer(v, n - 1);
        }
        child_usage_messages(v, (n - 1) as nat) + usage_messages(child(v, n - 1))
    }
}

fn collect_child_messages(value: &Json, held: &Json, n: usize, out: &mut Vec<Json>)
    requires
        n < child_count(value@),
        held@ == child(value@, n as int),
    ensures
        json_views(final(out)@) == json_views(old(out)@) + usage_messages(held@),
    decreases longest_text(value@), value@, 0nat,
{
    proof {
        lemma_child_is_smaller(value@, n as int);
        lemma_child_texts_are_no_longer(value@, n as int);
    }
    collect_usage_messages(held, out);
}

/// Appends the usage events of a JSON tree.
pub fn collect_usage_messages(value: &Json, out: &mut Vec<Json>)
    ensures
        json_views(final(out)@) == json_views(old(out)@) + usage_messages(value@),
    decreases longest_text(value@), value@, 1nat,
{
    let ghost before = json_views(out@);
    if is_usage_message(value) {
        out.push(value.duplicate());
        proof {
            assert(json_views(out@) =~= before + seq![value@]);
        }
        return ;
    }
    proof {
        assert(before + Seq::<JsonView>::empty() =~= before);
        assert(before + child_usage_messages(value@, 0) =~= before);
    }
    match value {
        Json::Text(text) => match parse_json(text.as_str()) {
            Some(inner) => {
                collect_usage_messages(&inner, out);
            },
            None => {},
        },
        Json::Object(members) => {
            let mut i: usize = 0;
            while i < members.len()
                invariant
                    *value == Json::Object(*members),
                    i <= members@.len(),
                    json_views(out@) == before + child_usage_messages(value@, i as nat),
                decreases members@.len() - i,
            {
                collect_child_messages(value, &members[i].value, i, out);
                proof {
                    assert(before + (child_usage_messages(value@, i as nat) + usage_messages(
                        child(value@, i as int),
                    )) =~= (before + child_usage_messages(value@, i as nat)) + usage_messages(
                        child(value@, i as int),
                    ));
                }
                i += 1;
            }
        },
        Json::Array(items) => {
            let mut i: usize = 0;
            while i < items.len()
                invariant
                    *value == Json::Array(*items),
                    i <= items@.len(),
                    json_views(out@) == before + child_usage_messages(value@, i as nat),
                decreases items@.len() - i,
            {
                collect_child_messages(value, &items[i], i, out);
                proof {
                    assert(before + (child_usage_messages(value@, i as nat) + usage_messages(
                        child(value@, i as int),
                    )) =~= (before + child_usage_messages(value@, i as nat)) + usage_messages(
                        child(value@, i as int),
                    ));
                }
                i += 1;
            }
        },
        _ => {},
    }
}

/// What a run lends to its usage events.
#[derive(Debug)]
pub struct SdkRunMeta<'a> {
    pub agent_id: String,
    pub model: Option<&'a Json>,
    pub timestamp: Option<i64>,
}

/// The mathematical view of what a run lends to its usage events.
#[verifier::ext_equal]
pub struct RunMetaView {
    pub agent_id: Seq<char>,
    pub model: Option<JsonView>,
    pub timestamp: Option<i64>,
}

impl<'a> View for SdkRunMeta<'a> {
    type V = RunMetaView;

    open spec fn view(&self) -> RunMetaView {
        RunMetaView {
            agent_id: self.agent_id@,
            model: opt_json(self.model),
            timestamp: self.timestamp,
        }
    }
}

/// What a run lends to its usage events.
pub open spec fn run_meta(run: JsonView, fallback_session: Seq<char>) -> RunMetaView {
    RunMetaView {
        agent_id: text_or(agent_id(run), fallback_session),
        model: member(run, "model"@),
        timestamp: recorded_instant(run),
    }
}

/// The last of `runs` with the given id.
pub open spec fn last_run(runs: Seq<JsonView>, id: Seq<char>) -> Option<JsonView>
    decreases runs.len(),
{
    if runs.len() == 0 {
        None
    } else if run_id(runs.last()) == Some(id) {
        Some(runs.last())
    } else {
        last_run(runs.drop_last(), id)
    }
}

/// What the run with the given id lends to its usage events.
pub open spec fn meta_of(
    runs: Seq<JsonView>,
    id: Seq<char>,
    fallback_session: Seq<char>,
) -> Option<RunMetaView> {
    match last_run(runs, id) {
        Some(run) => Some(run_meta(run, fallback_session)),
        None => None,
    }
}

/// The id of a usage event's record: run, sequence number and position.
pub open spec fn event_message_id(run: Seq<char>, seq: u64, index: nat) -> Seq<char> {
    run + ":"@ + decimal(seq as nat) + ":"@ + decimal(index)
}

/// The record of one usage event. What the event does not say itself, the row
/// around it or its run says.
pub open spec fn usage_event_record(
    payload: JsonView,
    event: JsonView,
    meta: Option<RunMetaView>,
    run: Seq<char>,
    seq: u64,
    index: nat,
    fallback_session: Seq<char>,
    project_path: Seq<char>,
) -> Option<RecordView> {
    let (display, own_id) = model_names(member(payload, "model"@));
    let (run_display, run_model_id) = model_names(
        match meta {
            Some(m) => m.model,
            None => None,
        },
    );
    let model_id = either(own_id, run_model_id);
    let session = either(
        agent_id(payload),
        match meta {
            Some(m) => Some(m.agent_id),
            None => None,
        },
    );
    match (
        either(usage_in_opt(member(payload, "usage"@)), usage_in(payload)),
        either(
            either(recorded_instant(payload), recorded_instant(event)),
            match meta {
                Some(m) => m.timestamp,
                None => None,
            },
        ),
        either(either(display, model_id), run_display),
    ) {
        (Some(parsed), Some(timestamp), Some(model)) => Some(
            RecordView {
                timestamp,
                session_id: match session {
                    Some(id) => if id.len() > 0 {
                        id
                    } else {
                        fallback_session
                    },
                    None => fallback_session,
                },
                message_id: event_message_id(run, seq, index),
                model,
                model_id,
                usage: parsed.usage,
                cost_usd: parsed.cost_usd,
                project_path,
            },
        ),
        _ => None,
    }
}

/// The view of run metadata that may be absent.
pub open spec fn opt_run_meta(meta: Option<&SdkRunMeta>) -> Option<RunMetaView> {
    match meta {
        Some(m) => Some(m@),
        None => None,
    }
}

/// Reads one usage event.
pub fn record_from_usage_event(
    payload: &Json,
    event: &Json,
    meta: Option<&SdkRunMeta>,
    run: &str,
    seq: u64,
    index: usize,
    fallback_session: &str,
    project_path: &str,
) -> (record: Option<CursorUsageRecord>)
    ensures
        opt_record(record) == usage_event_record(
            payload@,
            event@,
            opt_run_meta(meta),
            run@,
            seq,
            index as nat,
            fallback_session@,
            project_path@,
        ),
{
    let nested = match payload.get("usage") {
        Some(usage) => parse_usage_value(usage),
        None => None,
    };
    let parsed = match nested {
        Some(parsed) => parsed,
        None => match parse_usage_value(payload) {
            Some(parsed) => parsed,
            None => {
                return None;
            },
        },
    };
    let own_time = match timestamp_from_value(payload) {
        Some(timestamp) => Some(timestamp),
        None => timestamp_from_value(event),
    };
    let timestamp: i64 = match own_time {
        Some(timestamp) => timestamp,
        None => match meta {
            Some(m) => match m.timestamp {
                Some(timestamp) => timestamp,
                None => {
                    return None;
                },
            },
            None => {
                return None;
            },
        },
    };
    let (display, own_id) = model_from_value(payload.get("model"));
    let run_model = match meta {
        Some(m) => m.model,
        None => None,
    };
    let (run_display, run_model_id) = model_from_value(run_model);
    let model_id = match own_id {
        Some(id) => Some(id),
        None => run_model_id,
    };
    let named = match display {
        Some(model) => Some(model),
        None => copy_opt(&model_id),
    };
    let model = match named {
        Some(model) => model,
        None => match run_display {
            Some(model) => model,
            None => {
                return None;
            },
        },
    };
    let agent = match agent_id_of(payload) {
        Some(id) => Some(id),
        None => match meta {
            Some(m) => Some(m.agent_id.clone()),
            None => None,
        },
    };
    let session_id = match agent {
        Some(id) => if id.as_str().is_empty() {
            fallback_session.to_owned()
        } else {
            id
        },
        None => fallback_session.to_owned(),
    };
    let mut message_id = run.to_owned();
    message_id.append(":");
    message_id.append(decimal_text(seq).as_str());
    message_id.append(":");
    message_id.append(decimal_text(index as u64).as_str());
    Some(
        CursorUsageRecord {
            timestamp,
            session_id,
            message_id,
            model,
            model_id,
            usage: parsed.usage,
            cost_usd: parsed.cost_usd,
            project_path: project_path.to_owned(),
        },
    )
}

pub open spec fn sequence_keys() -> Seq<Seq<char>> {
    seq!["seq"@, "sequence"@]
}

/// The sequence number of an event, zero where it has none.
pub open spec fn event_sequence(event: JsonView) -> u64 {
    match count_at(event, sequence_keys()) {
        Some(seq) => seq,
        None => 0,
    }
}

/// The run that a usage event belongs to.
pub open spec fn payload_run(
    payload: JsonView,
    event: JsonView,
    fallback_session: Seq<char>,
) -> Seq<char> {
    text_or(either(run_id(payload), run_id(event)), fallback_session)
}

/// The records of the first `n` usage events of a row, each with its run.
pub open spec fn payload_records(
    runs: Seq<JsonView>,
    event: JsonView,
    n: nat,
    fallback_session: Seq<char>,
    project_path: Seq<char>,
) -> Seq<(Seq<char>, RecordView)>
    decreases n,
{
    if n == 0 {
        Seq::empty()
    } else {
        let before = payload_records(runs, event, (n - 1) as nat, fallback_session, project_path);
        let payload = usage_messages(event)[n - 1];
        let run = payload_run(payload, event, fallback_session);
        match usage_event_record(
            payload,
            event,
            meta_of(runs, run, fallback_session),
            run,
            event_sequence(event),
            (n - 1) as nat,
            fallback_session,
            project_path,
        ) {
            Some(record) => before.push((run, record)),
            None => before,
        }
    }
}

/// The records of the usage events of all rows, each with its run.
pub open spec fn event_records(
    runs: Seq<JsonView>,
    events: Seq<JsonView>,
    fallback_session: Seq<char>,
    project_path: Seq<char>,
) -> Seq<(Seq<char>, RecordView)>
    decreases events.len(),
{
    if events.len() == 0 {
        Seq::empty()
    } else {
        event_records(runs, events.drop_last(), fallback_session, project_path) + payload_records(
            runs,
            events.last(),
            usage_messages(events.last()).len(),
            fallback_session,
            project_path,
        )
    }
}

/// Whether one of the records belongs to the given run.
pub open spec fn covers(found: Seq<(Seq<char>, RecordView)>, id: Seq<char>) -> bool {
    exists|k: int| 0 <= k < found.len() && (#[trigger] found[k]).0 == id
}

/// The runs that some records belong to.
pub open spec fn runs_of(found: Seq<(Seq<char>, RecordView)>) -> Set<Seq<char>> {
    Set::new(|id: Seq<char>| covers(found, id))
}

/// Whether a run is one of those that have usage events.
pub open spec fn is_covered(run: JsonView, covered: Set<Seq<char>>) -> bool {
    run_id(run) matches Some(id) && covered.contains(id)
}

/// The records of some runs, without those of the covered runs.
pub open spec fn uncovered_run_records(
    runs: Seq<JsonView>,
    covered: Set<Seq<char>>,
    fallback_session: Seq<char>,
    project_path: Seq<char>,
) -> Seq<RecordView>
    decreases runs.len(),
{
    if runs.len() == 0 {
        Seq::empty()
    } else {
        let before = uncovered_run_records(
            runs.drop_last(),
            covered,
            fallback_session,
            project_path,
        );
        match sdk_run_record(runs.last(), fallback_session, project_path) {
            Some(record) => if is_covered(runs.last(), covered) {
                before
            } else {
                before.push(record)
            },
            None => before,
        }
    }
}

/// The records without their runs.
pub open spec fn plain_records(found: Seq<(Seq<char>, RecordView)>) -> Seq<RecordView> {
    Seq::new(found.len(), |i: int| found[i].1)
}

/// The records of an SDK catalog: those of its usage events, then those of the
/// runs that have none.
pub open spec fn index_records(
    runs: Seq<JsonView>,
    events: Seq<JsonView>,
    fallback_session: Seq<char>,
    project_path: Seq<char>,
) -> Seq<RecordView> {
    let found = event_records(runs, events, fallback_session, project_path);
    plain_records(found) + uncovered_run_records(
        runs,
        runs_of(found),
        fallback_session,
        project_path,
    )
}

/// The records of the rows of some runs, read as any JSON tree, without the
/// rows of the covered runs.
pub open spec fn uncovered_row_records(
    runs: Seq<JsonView>,
    covered: Set<Seq<char>>,
    fallback_session: Seq<char>,
    project_path: Seq<char>,
) -> Seq<RecordView>
    decreases runs.len(),
{
    if runs.len() == 0 {
        Seq::empty()
    } else {
        let before = uncovered_row_records(
            runs.drop_last(),
            covered,
            fallback_session,
            project_path,
        );
        if is_covered(runs.last(), covered) {
            before
        } else {
            before + json_records(runs.last(), fallback_session, project_path)
        }
    }
}

/// The records of a stored catalog: those of its usage events, then those of
/// the rows of the runs that have none. A run may also have its usage events
/// elsewhere.
pub open spec fn catalog_records(
    runs: Seq<JsonView>,
    events: Seq<JsonView>,
    elsewhere: Set<Seq<char>>,
    fallback_session: Seq<char>,
    project_path: Seq<char>,
) -> Seq<RecordView> {
    let found = event_records(runs, events, fallback_session, project_path);
    plain_records(found) + uncovered_row_records(
        runs,
        elsewhere.union(runs_of(found)),
        fallback_session,
        project_path,
    )
}

/// Whether `metas` finds the last run of each id.
pub open spec fn indexes_runs(metas: Map<Seq<char>, usize>, runs: Seq<JsonView>) -> bool {
    forall|id: Seq<char>|
        #![trigger last_run(runs, id)]
        #![trigger metas.contains_key(id)]
        match last_run(runs, id) {
            Some(run) => metas.contains_key(id) && metas[id] < runs.len() && runs[metas[id] as int]
                == run,
            None => !metas.contains_key(id),
        }
}

fn index_runs(runs: &[Json]) -> (metas: StringHashMap<usize>)
    ensures
        indexes_runs(metas@, json_views(runs@)),
{
    let mut metas: StringHashMap<usize> = StringHashMap::new();
    let ghost all = json_views(runs@);
    let mut i: usize = 0;
    proof {
        assert(all.take(0) =~= Seq::<JsonView>::empty());
    }
    while i < runs.len()
        invariant
            all == json_views(runs@),
            i <= runs@.len(),
            indexes_runs(metas@, all.take(i as int)),
        decreases runs@.len() - i,
    {
        let ghost before = metas@;
        proof {
            assert(all.take(i + 1).drop_last() =~= all.take(i as int));
            assert(all.take(i + 1).last() == runs@[i as int]@);
        }
        match run_id_of(&runs[i]) {
            Some(id) => {
                let ghost key = id@;
                metas.insert(id, i);
                proof {
                    assert forall|other: Seq<char>|
                        #![trigger last_run(all.take(i + 1), other)]
                        #![trigger metas@.contains_key(other)]
                        match last_run(all.take(i + 1), other) {
                            Some(run) => metas@.contains_key(other) && metas@[other] < i + 1
                                && all.take(i + 1)[metas@[other] as int] == run,
                            None => !metas@.contains_key(other),
                        } by {
                        assert(before.contains_key(other) <==> last_run(
                            all.take(i as int),
                            other,
                        ) is Some);
                        if other != key {
                            assert(last_run(all.take(i + 1), other) == last_run(
                                all.take(i as int),
                                other,
                            ));
                        }
                    }
                }
            },
            None => {
                proof {
                    assert forall|other: Seq<char>|
                        #![trigger last_run(all.take(i + 1), other)]
                        #![trigger metas@.contains_key(other)]
                        match last_run(all.take(i + 1), other) {
                            Some(run) => metas@.contains_key(other) && metas@[other] < i + 1
                                && all.take(i + 1)[metas@[other] as int] == run,
                            None => !metas@.contains_key(other),
                        } by {
                        assert(last_run(all.take(i + 1), other) == last_run(
                            all.take(i as int),
                            other,
                        ));
                    }
                }
            },
        }
        i += 1;
    }
    proof {
        assert(all.take(i as int) =~= all);
    }
    metas
}

fn run_meta_of<'a>(run: &'a Json, fallback_session: &str) -> (meta: SdkRunMeta<'a>)
    ensures
        meta@ == run_meta(run@, fallback_session@),
{
    let agent = match agent_id_of(run) {
        Some(id) => id,
        None => fallback_session.to_owned(),
    };
    SdkRunMeta { agent_id: agent, model: run.get("model"), timestamp: timestamp_from_value(run) }
}

fn meta_for<'a>(
    runs: &'a [Json],
    metas: &StringHashMap<usize>,
    id: &str,
    fallback_session: &str,
) -> (meta: Option<SdkRunMeta<'a>>)
    requires
        indexes_runs(metas@, json_views(runs@)),
    ensures
        match meta {
            Some(m) => meta_of(json_views(runs@), id@, fallback_session@) == Some(m@),
            None => meta_of(json_views(runs@), id@, fallback_session@) is None,
        },
{
    match metas.get(id) {
        Some(at) => {
            proof {
                assert(metas@.contains_key(id@));
                assert(json_views(runs@)[*at as int] == runs@[*at as int]@);
            }
            Some(run_meta_of(&runs[*at], fallback_session))
        },
        None => None,
    }
}

fn event_run(payload: &Json, event: &Json, fallback_session: &str) -> (run: String)
    ensures
        run@ == payload_run(payload@, event@, fallback_session@),
{
    match run_id_of(payload) {
        Some(id) => id,
        None => match run_id_of(event) {
            Some(id) => id,
            None => fallback_session.to_owned(),
        },
    }
}

proof fn lemma_covers_push(found: Seq<(Seq<char>, RecordView)>, next: (Seq<char>, RecordView))
    ensures
        forall|id: Seq<char>|
            #[trigger] covers(found.push(next), id) <==> covers(found, id) || id == next.0,
{
    assert forall|id: Seq<char>| #[trigger] covers(found.push(next), id) <==> covers(found, id)
        || id == next.0 by {
        if covers(found, id) {
            let k = choose|k: int| 0 <= k < found.len() && (#[trigger] found[k]).0 == id;
            assert(found.push(next)[k].0 == id);
        }
        if id == next.0 {
            assert(found.push(next)[found.len() as int].0 == id);
        }
        if covers(found.push(next), id) {
            let k = choose|k: int|
                0 <= k < found.push(next).len() && (#[trigger] found.push(next)[k]).0 == id;
            if k < found.len() {
                assert(found[k].0 == id);
            }
        }
    }
}

proof fn lemma_covers_append(a: Seq<(Seq<char>, RecordView)>, b: Seq<(Seq<char>, RecordView)>)
    ensures
        forall|id: Seq<char>| #[trigger] covers(a + b, id) <==> covers(a, id) || covers(b, id),
{
    assert forall|id: Seq<char>| #[trigger] covers(a + b, id) <==> covers(a, id) || covers(
        b,
        id,
    ) by {
        if covers(a, id) {
            let k = choose|k: int| 0 <= k < a.len() && (#[trigger] a[k]).0 == id;
            assert((a + b)[k].0 == id);
        }
        if covers(b, id) {
            let k = choose|k: int| 0 <= k < b.len() && (#[trigger] b[k]).0 == id;
            assert((a + b)[a.len() + k].0 == id);
        }
        if covers(a + b, id) {
            let k = choose|k: int| 0 <= k < (a + b).len() && (#[trigger] (a + b)[k]).0 == id;
            if k < a.len() {
                assert(a[k].0 == id);
            } else {
                assert(b[k - a.len()].0 == id);
            }
        }
    }
}

fn collect_event(
    runs: &[Json],
    metas: &StringHashMap<usize>,
    event: &Json,
    fallback_session: &str,
    project_path: &str,
    records: &mut Vec<CursorUsageRecord>,
    covered: &mut StringHashSet,
)
    requires
        indexes_runs(metas@, json_views(runs@)),
    ensures
        record_views(final(records)@) == record_views(old(records)@) + plain_records(
            payload_records(
                json_views(runs@),
                event@,
                usage_messages(event@).len(),
                fallback_session@,
                project_path@,
            ),
        ),
        forall|id: Seq<char>| #[trigger]
            final(covered)@.contains(id) <==> old(covered)@.contains(id) || covers(
                payload_records(
                    json_views(runs@),
                    event@,
                    usage_messages(event@).len(),
                    fallback_session@,
                    project_path@,
                ),
                id,
            ),
{
    let mut payloads: Vec<Json> = Vec::new();
    proof {
        assert(json_views(payloads@) =~= Seq::<JsonView>::empty());
        assert(Seq::<JsonView>::empty() + usage_messages(event@) =~= usage_messages(event@));
    }
    collect_usage_messages(event, &mut payloads);
    let keys = ["seq", "sequence"];
    proof {
        assert(names(keys@) =~= sequence_keys());
    }
    let seq: u64 = match json_u64_keys(event, &keys) {
        Some(seq) => seq,
        None => 0,
    };
    let ghost views = json_views(runs@);
    let ghost before = record_views(records@);
    let ghost covered_before = covered@;
    let mut i: usize = 0;
    proof {
        assert(before + plain_records(
            payload_records(views, event@, 0, fallback_session@, project_path@),
        ) =~= before);
    }
    while i < payloads.len()
        invariant
            views == json_views(runs@),
            indexes_runs(metas@, views),
            json_views(payloads@) == usage_messages(event@),
            seq == event_sequence(event@),
            i <= payloads@.len(),
            record_views(records@) == before + plain_records(
                payload_records(views, event@, i as nat, fallback_session@, project_path@),
            ),
            forall|id: Seq<char>| #[trigger]
                covered@.contains(id) <==> covered_before.contains(id) || covers(
                    payload_records(views, event@, i as nat, fallback_session@, project_path@),
                    id,
                ),
        decreases payloads@.len() - i,
    {
        let payload = &payloads[i];
        let ghost found = payload_records(
            views,
            event@,
            i as nat,
            fallback_session@,
            project_path@,
        );
        proof {
            assert(json_views(payloads@)[i as int] == payload@);
        }
        let run = event_run(payload, event, fallback_session);
        let meta = meta_for(runs, metas, run.as_str(), fallback_session);
        match record_from_usage_event(
            payload,
            event,
            meta.as_ref(),
            run.as_str(),
            seq,
            i,
            fallback_session,
            project_path,
        ) {
            Some(record) => {
                let ghost earlier = records@;
                let ghost next = (run@, record@);
                covered.insert(run);
                records.push(record);
                proof {
                    lemma_covers_push(found, next);
                    assert(record_views(records@) =~= record_views(earlier).push(record@));
                    assert(before + plain_records(found.push(next)) =~= (before + plain_records(
                        found,
                    )).push(record@));
                }
            },
            None => {},
        }
        i += 1;
    }
}

/// The records of the usage events of all rows. Their runs are added to
/// `covered`.
pub fn records_from_run_events(
    runs: &[Json],
    events: &[Json],
    fallback_session: &str,
    project_path: &str,
    covered: &mut StringHashSet,
) -> (records: Vec<CursorUsageRecord>)
    ensures
        record_views(records@) == plain_records(
            event_records(
                json_views(runs@),
                json_views(events@),
                fallback_session@,
                project_path@,
            ),
        ),
        final(covered)@ == old(covered)@.union(
            runs_of(
                event_records(
                    json_views(runs@),
                    json_views(events@),
                    fallback_session@,
                    project_path@,
                ),
            ),
        ),
{
    let ghost at_first = covered@;
    let metas = index_runs(runs);
    let ghost run_views = json_views(runs@);
    let ghost event_views = json_views(events@);
    let mut records: Vec<CursorUsageRecord> = Vec::new();
    let mut i: usize = 0;
    proof {
        assert(event_views.take(0) =~= Seq::<JsonView>::empty());
        assert(record_views(records@) =~= plain_records(Seq::empty()));
    }
    while i < events.len()
        invariant
            run_views == json_views(runs@),
            event_views == json_views(events@),
            indexes_runs(metas@, run_views),
            i <= events@.len(),
            record_views(records@) == plain_records(
                event_records(
                    run_views,
                    event_views.take(i as int),
                    fallback_session@,
                    project_path@,
                ),
            ),
            forall|id: Seq<char>| #[trigger]
                covered@.contains(id) <==> at_first.contains(id) || covers(
                    event_records(
                        run_views,
                        event_views.take(i as int),
                        fallback_session@,
                        project_path@,
                    ),
                    id,
                ),
        decreases events@.len() - i,
    {
        let ghost earlier = event_records(
            run_views,
            event_views.take(i as int),
            fallback_session@,
            project_path@,
        );
        let ghost here = payload_records(
            run_views,
            events@[i as int]@,
            usage_messages(events@[i as int]@).len(),
            fallback_session@,
            project_path@,
        );
        proof {
            assert(event_views.take(i + 1).drop_last() =~= event_views.take(i as int));
            assert(event_views.take(i + 1).last() == events@[i as int]@);
            lemma_covers_append(earlier, here);
            assert(plain_records(earlier + here) =~= plain_records(earlier) + plain_records(here));
        }
        collect_event(
            runs,
            &metas,
            &events[i],
            fallback_session,
            project_path,
            &mut records,
            covered,
        );
        i += 1;
    }
    proof {
        assert(event_views.take(i as int) =~= event_views);
        assert(covered@ =~= at_first.union(
            runs_of(event_records(run_views, event_views, fallback_session@, project_path@)),
        ));
    }
    records
}

/// Whether a run has usage events, given the set of the runs that have.
fn run_is_covered(run: &Json, covered: &StringHashSet) -> (yes: bool)
    ensures
        yes == is_covered(run@, covered@),
{
    match run_id_of(run) {
        Some(id) => covered.contains(id.as_str()),
        None => false,
    }
}

/// Combines SDK `runs` rows with the usage events of `run_events`.
///
/// The usage events of a run win over the cumulative usage of the run itself,
/// so no run is counted twice.
pub fn records_from_sdk_index(
    runs: &[Json],
    events: &[Json],
    fallback_session: &str,
    project_path: &str,
) -> (records: Vec<CursorUsageRecord>)
    ensures
        record_views(records@) == index_records(
            json_views(runs@),
            json_views(events@),
            fallback_session@,
            project_path@,
        ),
{
    let ghost run_views = json_views(runs@);
    let ghost event_views = json_views(events@);
    let mut covered: StringHashSet = StringHashSet::new();
    let mut records = records_from_run_events(
        runs,
        events,
        fallback_session,
        project_path,
        &mut covered,
    );
    let ghost found = event_records(run_views, event_views, fallback_session@, project_path@);
    let ghost first = plain_records(found);
    let ghost all_covered = runs_of(found);
    let mut k: usize = 0;
    proof {
        assert(covered@ =~= all_covered);
        assert(run_views.take(0) =~= Seq::<JsonView>::empty());
        assert(first + Seq::<RecordView>::empty() =~= first);
    }
    while k < runs.len()
        invariant
            run_views == json_views(runs@),
            k <= runs@.len(),
            covered@ == all_covered,
            record_views(records@) == first + uncovered_run_records(
                run_views.take(k as int),
                all_covered,
                fallback_session@,
                project_path@,
            ),
        decreases runs@.len() - k,
    {
        let ghost before = uncovered_run_records(
            run_views.take(k as int),
            all_covered,
            fallback_session@,
            project_path@,
        );
        proof {
            assert(run_views.take(k + 1).drop_last() =~= run_views.take(k as int));
            assert(run_views.take(k + 1).last() == runs@[k as int]@);
        }
        let skip = run_is_covered(&runs[k], &covered);
        if !skip {
            match record_from_sdk_run(&runs[k], fallback_session, project_path) {
                Some(record) => {
                    let ghost earlier = records@;
                    records.push(record);
                    proof {
                        assert(record_views(records@) =~= record_views(earlier).push(record@));
                        assert((first + before).push(record@) =~= first + before.push(record@));
                    }
                },
                None => {},
            }
        }
        k += 1;
    }
    proof {
        assert(run_views.take(k as int) =~= run_views);
    }
    records
}

/// The records of the rows of the runs that are not covered, each row read as
/// any JSON tree.
pub fn records_from_uncovered_rows(
    runs: &[Json],
    covered: &StringHashSet,
    fallback_session: &str,
    project_path: &str,
) -> (records: Vec<CursorUsageRecord>)
    ensures
        record_views(records@) == uncovered_row_records(
            json_views(runs@),
            covered@,
            fallback_session@,
            project_path@,
        ),
{
    let ghost run_views = json_views(runs@);
    let mut records: Vec<CursorUsageRecord> = Vec::new();
    let mut k: usize = 0;
    proof {
        assert(run_views.take(0) =~= Seq::<JsonView>::empty());
        assert(record_views(records@) =~= Seq::<RecordView>::empty());
    }
    while k < runs.len()
        invariant
            run_views == json_views(runs@),
            k <= runs@.len(),
            record_views(records@) == uncovered_row_records(
                run_views.take(k as int),
                covered@,
                fallback_session@,
                project_path@,
            ),
        decreases runs@.len() - k,
    {
        proof {
            assert(run_views.take(k + 1).drop_last() =~= run_views.take(k as int));
            assert(run_views.take(k + 1).last() == runs@[k as int]@);
        }
        if !run_is_covered(&runs[k], covered) {
            let ghost earlier = record_views(records@);
            let mut more = records_from_json_value(&runs[k], fallback_session, project_path);
            let ghost added = record_views(more@);
            records.append(&mut more);
            proof {
                assert(record_views(records@) =~= earlier + added);
            }
        }
        k += 1;
    }
    proof {
        assert(run_views.take(k as int) =~= run_views);
    }
    records
}

/// Reads a stored catalog: the usage events of `run_events`, then the rows of
/// the `runs` that have none here or elsewhere, each row as any JSON tree.
///
/// A catalog that stores tokens only on the event stream gives one record for
/// each turn, and no run is counted twice.
pub fn records_from_sdk_catalog(
    runs: &[Json],
    events: &[Json],
    elsewhere: StringHashSet,
    fallback_session: &str,
    project_path: &str,
) -> (records: Vec<CursorUsageRecord>)
    ensures
        record_views(records@) == catalog_records(
            json_views(runs@),
            json_views(events@),
            elsewhere@,
            fallback_session@,
            project_path@,
        ),
{
    let mut covered = elsewhere;
    let mut records = records_from_run_events(
        runs,
        events,
        fallback_session,
        project_path,
        &mut covered,
    );
    let ghost first = record_views(records@);
    let mut rows = records_from_uncovered_rows(runs, &covered, fallback_session, project_path);
    let ghost added = record_views(rows@);
    records.append(&mut rows);
    proof {
        assert(record_views(records@) =~= first + added);
    }
    records
}

/// Whether each of the records, without its run, carries usage of the project.
pub open spec fn events_carry_usage(
    found: Seq<(Seq<char>, RecordView)>,
    project_path: Seq<char>,
) -> bool {
    forall|i: int| 0 <= i < found.len() ==> carries_usage((#[trigger] found[i]).1, project_path)
}

proof fn lemma_payloads_carry_usage(
    runs: Seq<JsonView>,
    event: JsonView,
    n: nat,
    fallback_session: Seq<char>,
    project_path: Seq<char>,
)
    ensures
        events_carry_usage(
            payload_records(runs, event, n, fallback_session, project_path),
            project_path,
        ),
    decreases n,
{
    if n > 0 {
        lemma_payloads_carry_usage(runs, event, (n - 1) as nat, fallback_session, project_path);
    }
}

proof fn lemma_events_carry_usage(
    runs: Seq<JsonView>,
    events: Seq<JsonView>,
    fallback_session: Seq<char>,
    project_path: Seq<char>,
)
    ensures
        events_carry_usage(
            event_records(runs, events, fallback_session, project_path),
            project_path,
        ),
    decreases events.len(),
{
    if events.len() > 0 {
        let before = event_records(runs, events.drop_last(), fallback_session, project_path);
        let added = payload_records(
            runs,
            events.last(),
            usage_messages(events.last()).len(),
            fallback_session,
            project_path,
        );
        lemma_events_carry_usage(runs, events.drop_last(), fallback_session, project_path);
        lemma_payloads_carry_usage(
            runs,
            events.last(),
            usage_messages(events.last()).len(),
            fallback_session,
            project_path,
        );
        assert forall|i: int| 0 <= i < (before + added).len() implies carries_usage(
            (#[trigger] (before + added)[i]).1,
            project_path,
        ) by {
            if i < before.len() {
                assert(carries_usage(before[i].1, project_path));
            } else {
                assert(carries_usage(added[i - before.len()].1, project_path));
            }
        }
    }
}

/// Each record of a usage event carries usage of the project.
pub proof fn lemma_plain_events_carry_usage(
    runs: Seq<JsonView>,
    events: Seq<JsonView>,
    fallback_session: Seq<char>,
    project_path: Seq<char>,
)
    ensures
        all_carry_usage(
            plain_records(event_records(runs, events, fallback_session, project_path)),
            project_path,
        ),
{
    let found = event_records(runs, events, fallback_session, project_path);
    lemma_events_carry_usage(runs, events, fallback_session, project_path);
    assert forall|i: int| 0 <= i < plain_records(found).len() implies carries_usage(
        #[trigger] plain_records(found)[i],
        project_path,
    ) by {
        assert(carries_usage(found[i].1, project_path));
    }
}

proof fn lemma_runs_carry_usage(
    runs: Seq<JsonView>,
    covered: Set<Seq<char>>,
    fallback_session: Seq<char>,
    project_path: Seq<char>,
)
    ensures
        all_carry_usage(
            uncovered_run_records(runs, covered, fallback_session, project_path),
            project_path,
        ),
    decreases runs.len(),
{
    if runs.len() > 0 {
        lemma_runs_carry_usage(runs.drop_last(), covered, fallback_session, project_path);
        law_sdk_run_carries_usage(runs.last(), fallback_session, project_path);
    }
}

/// Only records that carry token counts are read from a catalog, and each
/// names a model and belongs to the given project.
pub proof fn law_index_records_carry_usage(
    runs: Seq<JsonView>,
    events: Seq<JsonView>,
    fallback_session: Seq<char>,
    project_path: Seq<char>,
)
    ensures
        all_carry_usage(
            index_records(runs, events, fallback_session, project_path),
            project_path,
        ),
{
    let found = event_records(runs, events, fallback_session, project_path);
    lemma_plain_events_carry_usage(runs, events, fallback_session, project_path);
    lemma_runs_carry_usage(runs, runs_of(found), fallback_session, project_path);
    lemma_carry_usage_append(
        plain_records(found),
        uncovered_run_records(runs, runs_of(found), fallback_session, project_path),
        project_path,
    );
}

/// Usage events win over the usage of their run: each record that a run adds
/// itself is of a run without usage events.
pub proof fn law_usage_events_win(
    runs: Seq<JsonView>,
    covered: Set<Seq<char>>,
    fallback_session: Seq<char>,
    project_path: Seq<char>,
    i: int,
)
    requires
        0 <= i < uncovered_run_records(runs, covered, fallback_session, project_path).len(),
    ensures
        exists|k: int|
            0 <= k < runs.len() && !is_covered(#[trigger] runs[k], covered) && sdk_run_record(
                runs[k],
                fallback_session,
                project_path,
            ) == Some(uncovered_run_records(runs, covered, fallback_session, project_path)[i]),
    decreases runs.len(),
{
    let rest = runs.drop_last();
    let before = uncovered_run_records(rest, covered, fallback_session, project_path);
    if i < before.len() {
        law_usage_events_win(rest, covered, fallback_session, project_path, i);
        let k = choose|k: int|
            0 <= k < rest.len() && !is_covered(#[trigger] rest[k], covered) && sdk_run_record(
                rest[k],
                fallback_session,
                project_path,
            ) == Some(before[i]);
        assert(runs[k] == rest[k]);
    } else {
        assert(!is_covered(runs[runs.len() - 1], covered));
    }
}

/// Each run without usage events that carries usage itself is counted.
pub proof fn law_other_runs_count(
    runs: Seq<JsonView>,
    covered: Set<Seq<char>>,
    fallback_session: Seq<char>,
    project_path: Seq<char>,
    k: int,
)
    requires
        0 <= k < runs.len(),
        !is_covered(runs[k], covered),
    ensures
        sdk_run_record(runs[k], fallback_session, project_path) matches Some(record) ==>
            uncovered_run_records(runs, covered, fallback_session, project_path).contains(record),
    decreases runs.len(),
{
    let all = uncovered_run_records(runs, covered, fallback_session, project_path);
    let before = uncovered_run_records(runs.drop_last(), covered, fallback_session, project_path);
    match sdk_run_record(runs[k], fallback_session, project_path) {
        Some(record) => {
            if k < runs.len() - 1 {
                assert(runs.drop_last()[k] == runs[k]);
                law_other_runs_count(
                    runs.drop_last(),
                    covered,
                    fallback_session,
                    project_path,
                    k,
                );
                let i = choose|i: int| 0 <= i < before.len() && before[i] == record;
                assert(all[i] == record);
            } else {
                assert(all.last() == record);
            }
        },
        None => {},
    }
}

/// Without usage events a run counts by its own record.
pub proof fn law_runs_count_without_events(
    runs: Seq<JsonView>,
    run: JsonView,
    fallback_session: Seq<char>,
    project_path: Seq<char>,
)
    ensures
        index_records(runs.push(run), Seq::empty(), fallback_session, project_path)
            == index_records(runs, Seq::empty(), fallback_session, project_path) + (
        match sdk_run_record(run, fallback_session, project_path) {
            Some(record) => seq![record],
            None => Seq::empty(),
        }),
{
    let found = Seq::<(Seq<char>, RecordView)>::empty();
    assert(event_records(runs, Seq::empty(), fallback_session, project_path) == found);
    assert(event_records(runs.push(run), Seq::empty(), fallback_session, project_path) == found);
    assert(runs.push(run).drop_last() =~= runs);
    assert(runs.push(run).last() == run);
    let before = uncovered_run_records(runs, runs_of(found), fallback_session, project_path);
    let after = uncovered_run_records(
        runs.push(run),
        runs_of(found),
        fallback_session,
        project_path,
    );
    assert(plain_records(found) + before =~= before);
    assert(plain_records(found) + after =~= after);
    match sdk_run_record(run, fallback_session, project_path) {
        Some(record) => {
            assert(after =~= before + seq![record]);
        },
        None => {
            assert(after =~= before + Seq::<RecordView>::empty());
        },
    }
}

/// Only records that carry token counts are read from a stored catalog, and
/// each names a model and belongs to the given project.
pub proof fn law_catalog_records_carry_usage(
    runs: Seq<JsonView>,
    events: Seq<JsonView>,
    elsewhere: Set<Seq<char>>,
    fallback_session: Seq<char>,
    project_path: Seq<char>,
)
    ensures
        all_carry_usage(
            catalog_records(runs, events, elsewhere, fallback_session, project_path),
            project_path,
        ),
{
    let found = event_records(runs, events, fallback_session, project_path);
    let covered = elsewhere.union(runs_of(found));
    lemma_plain_events_carry_usage(runs, events, fallback_session, project_path);
    lemma_rows_carry_usage(runs, covered, fallback_session, project_path);
    lemma_carry_usage_append(
        plain_records(found),
        uncovered_row_records(runs, covered, fallback_session, project_path),
        project_path,
    );
}

/// Each record of a row carries usage of the project.
pub proof fn lemma_rows_carry_usage(
    runs: Seq<JsonView>,
    covered: Set<Seq<char>>,
    fallback_session: Seq<char>,
    project_path: Seq<char>,
)
    ensures
        all_carry_usage(
            uncovered_row_records(runs, covered, fallback_session, project_path),
            project_path,
        ),
    decreases runs.len(),
{
    if runs.len() > 0 {
        let rest = runs.drop_last();
        lemma_rows_carry_usage(rest, covered, fallback_session, project_path);
        law_tree_records_carry_usage(
            runs.last(),
            root_identity(fallback_session, project_path),
        );
        lemma_carry_usage_append(
            uncovered_row_records(rest, covered, fallback_session, project_path),
            json_records(runs.last(), fallback_session, project_path),
            project_path,
        );
    }
}

/// A run with usage events is not counted again: taking its row away from a
/// stored catalog leaves the records of the other rows as they are.
pub proof fn law_covered_rows_add_nothing(
    before: Seq<JsonView>,
    run: JsonView,
    after: Seq<JsonView>,
    covered: Set<Seq<char>>,
    fallback_session: Seq<char>,
    project_path: Seq<char>,
)
    requires
        is_covered(run, covered),
    ensures
        uncovered_row_records(before.push(run) + after, covered, fallback_session, project_path)
            == uncovered_row_records(before + after, covered, fallback_session, project_path),
    decreases after.len(),
{
    if after.len() == 0 {
        assert(before.push(run) + after =~= before.push(run));
        assert(before + after =~= before);
        assert(before.push(run).drop_last() =~= before);
    } else {
        let rest = after.drop_last();
        law_covered_rows_add_nothing(before, run, rest, covered, fallback_session, project_path);
        assert((before.push(run) + after).drop_last() =~= before.push(run) + rest);
        assert((before + after).drop_last() =~= before + rest);
    }
}

/// Where more runs have usage events, rows are only taken away.
pub proof fn law_more_events_only_take_rows(
    runs: Seq<JsonView>,
    less: Set<Seq<char>>,
    more: Set<Seq<char>>,
    fallback_session: Seq<char>,
    project_path: Seq<char>,
    i: int,
)
    requires
        less.subset_of(more),
        0 <= i < uncovered_row_records(runs, more, fallback_session, project_path).len(),
    ensures
        uncovered_row_records(runs, less, fallback_session, project_path).contains(
            uncovered_row_records(runs, more, fallback_session, project_path)[i],
        ),
    decreases runs.len(),
{
    let rest = runs.drop_last();
    let all = uncovered_row_records(runs, less, fallback_session, project_path);
    let few = uncovered_row_records(runs, more, fallback_session, project_path);
    let all_before = uncovered_row_records(rest, less, fallback_session, project_path);
    let few_before = uncovered_row_records(rest, more, fallback_session, project_path);
    if i < few_before.len() {
        law_more_events_only_take_rows(rest, less, more, fallback_session, project_path, i);
        let k = choose|k: int| 0 <= k < all_before.len() && all_before[k] == few_before[i];
        assert(all[k] == few[i]);
    } else {
        assert(all[all_before.len() + (i - few_before.len())] == few[i]);
    }
}

/// A run that names itself and its agent, and that carries usage, gives the
/// same record as a row and as a run.
pub proof fn law_named_run_is_read_alike(
    run: JsonView,
    fallback_session: Seq<char>,
    project_path: Seq<char>,
)
    requires
        run_id(run) is Some,
        agent_id(run) is Some,
    ensures
        sdk_run_record(run, fallback_session, project_path) matches Some(record) ==> json_records(
            run,
            fallback_session,
            project_path,
        ) == seq![record],
{
}

/// Where each run names itself and its agent, and carries its usage where a
/// run does, a stored catalog gives the records of the index.
pub proof fn law_catalog_is_the_index(
    runs: Seq<JsonView>,
    events: Seq<JsonView>,
    fallback_session: Seq<char>,
    project_path: Seq<char>,
)
    requires
        forall|k: int|
            0 <= k < runs.len() ==> run_id(#[trigger] runs[k]) is Some && agent_id(runs[k]) is Some
                && (sdk_run_record(runs[k], fallback_session, project_path) is None
                ==> json_records(runs[k], fallback_session, project_path).len() == 0),
    ensures
        catalog_records(runs, events, Set::empty(), fallback_session, project_path)
            == index_records(runs, events, fallback_session, project_path),
{
    let found = event_records(runs, events, fallback_session, project_path);
    assert(Set::<Seq<char>>::empty().union(runs_of(found)) =~= runs_of(found));
    lemma_rows_are_runs(runs, runs_of(found), fallback_session, project_path);
}

proof fn lemma_rows_are_runs(
    runs: Seq<JsonView>,
    covered: Set<Seq<char>>,
    fallback_session: Seq<char>,
    project_path: Seq<char>,
)
    requires
        forall|k: int|
            0 <= k < runs.len() ==> run_id(#[trigger] runs[k]) is Some && agent_id(runs[k]) is Some
                && (sdk_run_record(runs[k], fallback_session, project_path) is None
                ==> json_records(runs[k], fallback_session, project_path).len() == 0),
    ensures
        uncovered_row_records(runs, covered, fallback_session, project_path)
            == uncovered_run_records(runs, covered, fallback_session, project_path),
    decreases runs.len(),
{
    if runs.len() > 0 {
        let rest = runs.drop_last();
        let run = runs[runs.len() - 1];
        assert forall|k: int| 0 <= k < rest.len() implies run_id(#[trigger] rest[k]) is Some
            && agent_id(rest[k]) is Some && (sdk_run_record(
            rest[k],
            fallback_session,
            project_path,
        ) is None ==> json_records(rest[k], fallback_session, project_path).len() == 0) by {
            assert(run_id(runs[k]) is Some);
        }
        lemma_rows_are_runs(rest, covered, fallback_session, project_path);
        law_named_run_is_read_alike(run, fallback_session, project_path);
        let before = uncovered_row_records(rest, covered, fallback_session, project_path);
        let here = json_records(run, fallback_session, project_path);
        match sdk_run_record(run, fallback_session, project_path) {
            Some(record) => {
                assert(before + here =~= before.push(record));
            },
            None => {
                assert(before + here =~= before);
            },
        }
    }
}

/// The rows of some runs, each read as any JSON tree.
pub open spec fn all_row_records(
    runs: Seq<JsonView>,
    fallback_session: Seq<char>,
    project_path: Seq<char>,
) -> Seq<RecordView>
    decreases runs.len(),
{
    if runs.len() == 0 {
        Seq::empty()
    } else {
        all_row_records(runs.drop_last(), fallback_session, project_path) + json_records(
            runs.last(),
            fallback_session,
            project_path,
        )
    }
}

/// The rows of two lists of runs are read one list after the other.
pub proof fn law_rows_are_read_one_by_one(
    first: Seq<JsonView>,
    second: Seq<JsonView>,
    fallback_session: Seq<char>,
    project_path: Seq<char>,
)
    ensures
        all_row_records(first + second, fallback_session, project_path) == all_row_records(
            first,
            fallback_session,
            project_path,
        ) + all_row_records(second, fallback_session, project_path),
    decreases second.len(),
{
    let before = all_row_records(first, fallback_session, project_path);
    if second.len() == 0 {
        assert(first + second =~= first);
        assert(before + Seq::<RecordView>::empty() =~= before);
    } else {
        let rest = second.drop_last();
        let rows = all_row_records(rest, fallback_session, project_path);
        let last = json_records(second.last(), fallback_session, project_path);
        law_rows_are_read_one_by_one(first, rest, fallback_session, project_path);
        assert((first + second).drop_last() =~= first + rest);
        assert(before + rows + last =~= before + (rows + last));
    }
}

/// Without usage events each row of a stored catalog counts.
pub proof fn law_rows_count_without_events(
    runs: Seq<JsonView>,
    fallback_session: Seq<char>,
    project_path: Seq<char>,
)
    ensures
        catalog_records(runs, Seq::empty(), Set::empty(), fallback_session, project_path)
            == all_row_records(runs, fallback_session, project_path),
{
    let found = Seq::<(Seq<char>, RecordView)>::empty();
    assert(event_records(runs, Seq::empty(), fallback_session, project_path) == found);
    assert(Set::<Seq<char>>::empty().union(runs_of(found)) =~= Set::empty());
    lemma_uncovered_rows_count(runs, fallback_session, project_path);
    let rows = all_row_records(runs, fallback_session, project_path);
    assert(plain_records(found) + rows =~= rows);
}

/// Without usage events the rows that are not covered are all rows.
pub proof fn lemma_uncovered_rows_count(
    runs: Seq<JsonView>,
    fallback_session: Seq<char>,
    project_path: Seq<char>,
)
    ensures
        uncovered_row_records(runs, Set::empty(), fallback_session, project_path)
            == all_row_records(runs, fallback_session, project_path),
    decreases runs.len(),
{
    if runs.len() > 0 {
        lemma_uncovered_rows_count(runs.drop_last(), fallback_session, project_path);
    }
}

} // verus!
