//! Laws of SDK catalogs: what a usage event says itself and what its run lends
//! it, and that each turn is counted once.

use vstd::prelude::*;

use crate::codec::json_text;
use crate::field_laws::{law_decimal_is_written_in_digits, law_decimals_differ};
use crate::json::{child, child_count, count_at, longest_text, member, text_at, JsonView};
use crate::parser::{
    json_records, model_names, recorded_instant, run_id, sdk_run_record, RecordView,
};
use crate::record_laws::{law_run_and_agent_are_named, usage_of};
use crate::sdk_index::{
    catalog_records, child_usage_messages, covers, event_message_id, event_records, event_sequence,
    index_records, last_run, meta_of, payload_records, payload_run, sequence_keys,
    uncovered_row_records, uncovered_run_records, usage_event_record, usage_message,
    usage_messages, RunMetaView,
};
use crate::text::decimal;
use crate::usage::usage_in;

verus! {

/// A usage event is an object whose `type` is the text `usage` and that has a
/// `usage`.
pub proof fn law_usage_events_are_told_by_their_type(v: JsonView)
    ensures
        usage_message(v) <==> member(v, "usage"@) is Some && (member(v, "type"@) matches Some(
            JsonView::Text(kind),
        ) && kind == "usage"@),
{
}

proof fn lemma_same_child_messages(v: JsonView, w: JsonView, n: nat)
    requires
        n <= child_count(v),
        n <= child_count(w),
        forall|k: int| 0 <= k < n ==> #[trigger] child(v, k) == child(w, k),
    ensures
        child_usage_messages(v, n) == child_usage_messages(w, n),
    decreases n,
{
    if n > 0 {
        lemma_same_child_messages(v, w, (n - 1) as nat);
        assert(child(v, n - 1) == child(w, n - 1));
    }
}

proof fn lemma_child_messages_append(a: Seq<JsonView>, b: Seq<JsonView>, n: nat)
    requires
        n <= b.len(),
    ensures
        child_usage_messages(JsonView::Array(a + b), a.len() + n) == child_usage_messages(
            JsonView::Array(a),
            a.len(),
        ) + child_usage_messages(JsonView::Array(b), n),
    decreases n,
{
    let all = JsonView::Array(a + b);
    let first = child_usage_messages(JsonView::Array(a), a.len());
    if n == 0 {
        assert forall|k: int| 0 <= k < a.len() implies #[trigger] child(all, k) == child(
            JsonView::Array(a),
            k,
        ) by {}
        lemma_same_child_messages(all, JsonView::Array(a), a.len());
        assert(first + Seq::<JsonView>::empty() =~= first);
    } else {
        lemma_child_messages_append(a, b, (n - 1) as nat);
        assert(child(all, a.len() + n - 1) == child(JsonView::Array(b), n - 1));
        let before = child_usage_messages(JsonView::Array(b), (n - 1) as nat);
        let last = usage_messages(b[n - 1]);
        assert(first + before + last =~= first + (before + last));
    }
}

/// The usage events of an array are those of its items, one after the other.
pub proof fn law_arrays_are_searched_item_by_item(a: Seq<JsonView>, b: Seq<JsonView>)
    ensures
        usage_messages(JsonView::Array(a + b)) == usage_messages(JsonView::Array(a))
            + usage_messages(JsonView::Array(b)),
        forall|x: JsonView| #[trigger]
            usage_messages(JsonView::Array(seq![x])) == usage_messages(x),
{
    lemma_child_messages_append(a, b, b.len());
    assert forall|x: JsonView| #[trigger] usage_messages(JsonView::Array(seq![x]))
        == usage_messages(x) by {
        let v = JsonView::Array(seq![x]);
        assert(child(v, 0) == x);
        assert(child_usage_messages(v, 0) =~= Seq::empty());
        assert(child_usage_messages(v, 1) == child_usage_messages(v, 0) + usage_messages(x));
        assert(Seq::<JsonView>::empty() + usage_messages(x) =~= usage_messages(x));
    }
}

/// The usage events of an object are the object itself where it is one, else
/// those of its values in the order of its members.
pub proof fn law_objects_are_searched_member_by_member(members: Seq<(Seq<char>, JsonView)>)
    ensures
        ({
            let v = JsonView::Object(members);
            &&& usage_message(v) ==> usage_messages(v) == seq![v]
            &&& !usage_message(v) ==> usage_messages(v) == usage_messages(
                JsonView::Array(Seq::new(members.len(), |i: int| members[i].1)),
            )
        }),
{
    let v = JsonView::Object(members);
    let values = Seq::new(members.len(), |i: int| members[i].1);
    assert forall|k: int| 0 <= k < members.len() implies #[trigger] child(v, k) == child(
        JsonView::Array(values),
        k,
    ) by {}
    lemma_same_child_messages(v, JsonView::Array(values), members.len());
}

/// A text that spells JSON is searched as that JSON, and any other plain value
/// holds no usage event.
pub proof fn law_texts_are_searched_as_the_json_they_spell(v: JsonView)
    ensures
        v matches JsonView::Text(text) ==> match json_text(text) {
            Some(inner) => longest_text(inner) < text.len() ==> usage_messages(v)
                == usage_messages(inner),
            None => usage_messages(v).len() == 0,
        },
        v is Null || v is Bool || v is Number ==> usage_messages(v).len() == 0,
{
    if v is Null || v is Bool || v is Number {
        assert(usage_messages(v) == child_usage_messages(v, 0));
    }
}

/// The record of a usage event has the instant that its payload records,
/// whatever the row around it and its run record; the row's instant where only
/// the row records one; and the instant of the run only where neither does.
pub proof fn law_event_is_dated_by_itself_then_its_row_then_its_run(
    payload: JsonView,
    event: JsonView,
    meta: Option<RunMetaView>,
    run: Seq<char>,
    seq: u64,
    index: nat,
    fallback_session: Seq<char>,
    project_path: Seq<char>,
)
    ensures
        usage_event_record(
            payload,
            event,
            meta,
            run,
            seq,
            index,
            fallback_session,
            project_path,
        ) matches Some(record) ==> {
            &&& recorded_instant(payload) is Some ==> recorded_instant(payload) == Some(
                record.timestamp,
            )
            &&& recorded_instant(payload) is None && recorded_instant(event) is Some
                ==> recorded_instant(event) == Some(record.timestamp)
            &&& recorded_instant(payload) is None && recorded_instant(event) is None
                ==> meta is Some && meta->0.timestamp == Some(record.timestamp)
        },
{
}

/// What a run lends to an event changes no instant that the event or its row
/// records.
pub proof fn law_run_does_not_date_dated_events(
    payload: JsonView,
    event: JsonView,
    meta: Option<RunMetaView>,
    other: Option<RunMetaView>,
    run: Seq<char>,
    seq: u64,
    index: nat,
    fallback_session: Seq<char>,
    project_path: Seq<char>,
)
    requires
        recorded_instant(payload) is Some || recorded_instant(event) is Some,
    ensures
        ({
            let one = usage_event_record(
                payload,
                event,
                meta,
                run,
                seq,
                index,
                fallback_session,
                project_path,
            );
            let two = usage_event_record(
                payload,
                event,
                other,
                run,
                seq,
                index,
                fallback_session,
                project_path,
            );
            one is Some && two is Some ==> one->0.timestamp == two->0.timestamp
        }),
{
}

/// The record of a usage event has the usage of its payload, the session and
/// the model that the payload names before those of its run, the run with
/// sequence number and position as its message, and the project of the file.
pub proof fn law_event_record_says_what_the_event_says(
    payload: JsonView,
    event: JsonView,
    meta: Option<RunMetaView>,
    run: Seq<char>,
    seq: u64,
    index: nat,
    fallback_session: Seq<char>,
    project_path: Seq<char>,
)
    ensures
        ({
            let agent = text_at(payload, seq!["agentId"@, "agent_id"@]);
            let (display, own_id) = model_names(member(payload, "model"@));
            let (run_display, run_model_id) = if meta is Some {
                model_names(meta->0.model)
            } else {
                (None, None)
            };
            let nested = member(payload, "usage"@) is Some && usage_in(
                member(payload, "usage"@)->0,
            ) is Some;
            usage_event_record(
                payload,
                event,
                meta,
                run,
                seq,
                index,
                fallback_session,
                project_path,
            ) matches Some(record) ==> {
                &&& nested ==> usage_in(member(payload, "usage"@)->0) == Some(usage_of(record))
                &&& !nested ==> usage_in(payload) == Some(usage_of(record))
                &&& own_id is Some ==> record.model_id == own_id
                &&& own_id is None ==> record.model_id == run_model_id
                &&& display is Some ==> display == Some(record.model)
                &&& display is None && record.model_id is Some ==> record.model_id == Some(
                    record.model,
                )
                &&& display is None && record.model_id is None ==> run_display == Some(
                    record.model,
                )
                &&& agent is Some && agent->0.len() > 0 ==> agent == Some(record.session_id)
                &&& agent is None && meta is Some && meta->0.agent_id.len() > 0
                    ==> record.session_id == meta->0.agent_id
                &&& agent is None && (meta is None || meta->0.agent_id.len() == 0)
                    ==> record.session_id == fallback_session
                &&& record.message_id == run + ":"@ + decimal(seq as nat) + ":"@ + decimal(index)
                &&& record.project_path == project_path
            }
        }),
{
    law_run_and_agent_are_named(payload);
}

/// A usage event has a record exactly where it carries usage, an instant is
/// known from it, its row or its run, and a model from it or its run.
pub proof fn law_event_needs_usage_instant_and_model(
    payload: JsonView,
    event: JsonView,
    meta: Option<RunMetaView>,
    run: Seq<char>,
    seq: u64,
    index: nat,
    fallback_session: Seq<char>,
    project_path: Seq<char>,
)
    ensures
        ({
            let (display, own_id) = model_names(member(payload, "model"@));
            let (run_display, run_model_id) = if meta is Some {
                model_names(meta->0.model)
            } else {
                (None, None)
            };
            let usage = usage_in(payload) is Some || (member(payload, "usage"@) is Some
                && usage_in(member(payload, "usage"@)->0) is Some);
            let instant = recorded_instant(payload) is Some || recorded_instant(event) is Some || (
            meta is Some && meta->0.timestamp is Some);
            let model = display is Some || own_id is Some || run_display is Some
                || run_model_id is Some;
            usage_event_record(
                payload,
                event,
                meta,
                run,
                seq,
                index,
                fallback_session,
                project_path,
            ) is Some <==> usage && instant && model
        }),
{
}

proof fn lemma_split_at_colon(a: Seq<char>, x: Seq<char>, b: Seq<char>, y: Seq<char>)
    requires
        a + ":"@ + x == b + ":"@ + y,
        forall|i: int| 0 <= i < x.len() ==> #[trigger] x[i] != ':',
        forall|i: int| 0 <= i < y.len() ==> #[trigger] y[i] != ':',
    ensures
        a == b,
        x == y,
{
    reveal_strlit(":");
    let s = a + ":"@ + x;
    let t = b + ":"@ + y;
    assert(":"@.len() == 1);
    assert(s.len() == a.len() + 1 + x.len());
    assert(t.len() == b.len() + 1 + y.len());
    assert(s[a.len() as int] == ':');
    assert(t[b.len() as int] == ':');
    if a.len() < b.len() {
        let i = b.len() - a.len() - 1;
        assert(s[b.len() as int] == x[i]);
    } else if a.len() > b.len() {
        let i = a.len() - b.len() - 1;
        assert(t[a.len() as int] == y[i]);
    }
    assert(a =~= s.take(a.len() as int));
    assert(b =~= t.take(b.len() as int));
    assert(x =~= s.skip(a.len() as int + 1));
    assert(y =~= t.skip(b.len() as int + 1));
}

/// Different usage events have different messages: the message tells the run,
/// the sequence number and the position.
pub proof fn law_messages_of_events_differ(
    run: Seq<char>,
    seq: u64,
    index: nat,
    other_run: Seq<char>,
    other_seq: u64,
    other_index: nat,
)
    requires
        event_message_id(run, seq, index) == event_message_id(other_run, other_seq, other_index),
    ensures
        run == other_run,
        seq == other_seq,
        index == other_index,
{
    law_decimal_is_written_in_digits(seq as nat);
    law_decimal_is_written_in_digits(other_seq as nat);
    law_decimal_is_written_in_digits(index);
    law_decimal_is_written_in_digits(other_index);
    let a = run + ":"@ + decimal(seq as nat);
    let b = other_run + ":"@ + decimal(other_seq as nat);
    assert(event_message_id(run, seq, index) == a + ":"@ + decimal(index));
    assert(event_message_id(other_run, other_seq, other_index) == b + ":"@ + decimal(other_index));
    lemma_split_at_colon(a, decimal(index), b, decimal(other_index));
    lemma_split_at_colon(run, decimal(seq as nat), other_run, decimal(other_seq as nat));
    law_decimals_differ(seq as nat, other_seq as nat);
    law_decimals_differ(index, other_index);
}

/// A usage event belongs to the run that its payload names, else to the one
/// that its row names, else to the session of the file.
pub proof fn law_event_belongs_to_the_run_it_names(
    payload: JsonView,
    event: JsonView,
    fallback_session: Seq<char>,
)
    ensures
        ({
            let own = text_at(payload, seq!["runId"@, "run_id"@]);
            let around = text_at(event, seq!["runId"@, "run_id"@]);
            let run = payload_run(payload, event, fallback_session);
            &&& own is Some ==> own == Some(run)
            &&& own is None && around is Some ==> around == Some(run)
            &&& own is None && around is None ==> run == fallback_session
        }),
{
    law_run_and_agent_are_named(payload);
    law_run_and_agent_are_named(event);
}

/// The sequence number of an event is the count under one of its two names, and
/// zero where there is none.
pub proof fn law_sequence_number_is_named(event: JsonView)
    ensures
        match count_at(event, seq!["seq"@, "sequence"@]) {
            Some(n) => event_sequence(event) == n,
            None => event_sequence(event) == 0,
        },
{
    assert(sequence_keys() =~= seq!["seq"@, "sequence"@]);
}

/// Of several rows of one run the last lends to its events: the agent that it
/// names, else the session of the file, its model and its instant. A run
/// without a row lends nothing.
pub proof fn law_last_row_of_a_run_lends(
    runs: Seq<JsonView>,
    id: Seq<char>,
    fallback_session: Seq<char>,
)
    ensures
        match meta_of(runs, id, fallback_session) {
            Some(meta) => exists|k: int|
                {
                    &&& 0 <= k < runs.len()
                    &&& text_at(#[trigger] runs[k], seq!["runId"@, "run_id"@]) == Some(id)
                    &&& forall|j: int|
                        k < j < runs.len() ==> text_at(
                            #[trigger] runs[j],
                            seq!["runId"@, "run_id"@],
                        ) != Some(id)
                    &&& meta.model == member(runs[k], "model"@)
                    &&& meta.timestamp == recorded_instant(runs[k])
                    &&& match text_at(runs[k], seq!["agentId"@, "agent_id"@]) {
                        Some(agent) => meta.agent_id == agent,
                        None => meta.agent_id == fallback_session,
                    }
                },
            None => forall|j: int|
                0 <= j < runs.len() ==> text_at(#[trigger] runs[j], seq!["runId"@, "run_id"@])
                    != Some(id),
        },
    decreases runs.len(),
{
    if runs.len() > 0 {
        let rest = runs.drop_last();
        let last = runs.len() - 1;
        law_run_and_agent_are_named(runs[last]);
        law_last_row_of_a_run_lends(rest, id, fallback_session);
        if run_id(runs.last()) == Some(id) {
            assert(text_at(runs[last], seq!["runId"@, "run_id"@]) == Some(id));
        } else {
            assert(last_run(runs, id) == last_run(rest, id));
            assert(meta_of(runs, id, fallback_session) == meta_of(rest, id, fallback_session));
            assert forall|j: int| 0 <= j < rest.len() implies runs[j] == #[trigger] rest[j] by {}
            match meta_of(rest, id, fallback_session) {
                Some(meta) => {
                    let k = choose|k: int|
                        {
                            &&& 0 <= k < rest.len()
                            &&& text_at(#[trigger] rest[k], seq!["runId"@, "run_id"@]) == Some(id)
                            &&& forall|j: int|
                                k < j < rest.len() ==> text_at(
                                    #[trigger] rest[j],
                                    seq!["runId"@, "run_id"@],
                                ) != Some(id)
                            &&& meta.model == member(rest[k], "model"@)
                            &&& meta.timestamp == recorded_instant(rest[k])
                            &&& match text_at(rest[k], seq!["agentId"@, "agent_id"@]) {
                                Some(agent) => meta.agent_id == agent,
                                None => meta.agent_id == fallback_session,
                            }
                        };
                    assert(runs[k] == rest[k]);
                    assert forall|j: int| k < j < runs.len() implies text_at(
                        #[trigger] runs[j],
                        seq!["runId"@, "run_id"@],
                    ) != Some(id) by {
                        if j < last {
                            assert(rest[j] == runs[j]);
                        }
                    }
                },
                None => {
                    assert forall|j: int| 0 <= j < runs.len() implies text_at(
                        #[trigger] runs[j],
                        seq!["runId"@, "run_id"@],
                    ) != Some(id) by {
                        if j < last {
                            assert(rest[j] == runs[j]);
                        }
                    }
                },
            }
        }
    }
}

/// The record of the usage event at position `k` of a row.
#[verifier::opaque]
pub open spec fn event_at(
    runs: Seq<JsonView>,
    event: JsonView,
    k: int,
    fallback_session: Seq<char>,
    project_path: Seq<char>,
) -> Option<RecordView> {
    let payload = usage_messages(event)[k];
    let run = payload_run(payload, event, fallback_session);
    usage_event_record(
        payload,
        event,
        meta_of(runs, run, fallback_session),
        run,
        event_sequence(event),
        k as nat,
        fallback_session,
        project_path,
    )
}

/// Whether `picked` lists, from the first to the last, the usage events of a
/// row that have a record, and `found` these records with their runs.
pub open spec fn reads_row(
    runs: Seq<JsonView>,
    event: JsonView,
    fallback_session: Seq<char>,
    project_path: Seq<char>,
    found: Seq<(Seq<char>, RecordView)>,
    n: nat,
    picked: Seq<int>,
) -> bool {
    &&& picked.len() == found.len()
    &&& forall|i: int|
        0 <= i < picked.len() ==> 0 <= #[trigger] picked[i] < n && event_at(
            runs,
            event,
            picked[i],
            fallback_session,
            project_path,
        ) == Some(found[i].1) && found[i].0 == payload_run(
            usage_messages(event)[picked[i]],
            event,
            fallback_session,
        )
    &&& forall|i: int, j: int|
        0 <= i < j < picked.len() ==> #[trigger] picked[i] < #[trigger] picked[j]
    &&& forall|k: int|
        0 <= k < n && (#[trigger] event_at(runs, event, k, fallback_session, project_path)) is Some
            ==> picked.contains(k)
}

proof fn lemma_next_event(
    runs: Seq<JsonView>,
    event: JsonView,
    n: nat,
    fallback_session: Seq<char>,
    project_path: Seq<char>,
)
    requires
        n > 0,
    ensures
        payload_records(runs, event, n, fallback_session, project_path) == (match event_at(
            runs,
            event,
            n - 1,
            fallback_session,
            project_path,
        ) {
            Some(record) => payload_records(
                runs,
                event,
                (n - 1) as nat,
                fallback_session,
                project_path,
            ).push(
                (payload_run(usage_messages(event)[n - 1], event, fallback_session), record),
            ),
            None => payload_records(
                runs,
                event,
                (n - 1) as nat,
                fallback_session,
                project_path,
            ),
        }),
{
    reveal(event_at);
}

proof fn lemma_reads_row(
    runs: Seq<JsonView>,
    event: JsonView,
    n: nat,
    fallback_session: Seq<char>,
    project_path: Seq<char>,
) -> (picked: Seq<int>)
    ensures
        reads_row(
            runs,
            event,
            fallback_session,
            project_path,
            payload_records(runs, event, n, fallback_session, project_path),
            n,
            picked,
        ),
    decreases n,
{
    if n == 0 {
        Seq::empty()
    } else {
        let m = (n - 1) as nat;
        let before = payload_records(runs, event, m, fallback_session, project_path);
        let found = payload_records(runs, event, n, fallback_session, project_path);
        let earlier = lemma_reads_row(runs, event, m, fallback_session, project_path);
        lemma_next_event(runs, event, n, fallback_session, project_path);
        match event_at(runs, event, n - 1, fallback_session, project_path) {
            Some(record) => {
                let picked = earlier.push(n - 1);
                assert forall|k: int|
                    0 <= k < n && (#[trigger] event_at(
                        runs,
                        event,
                        k,
                        fallback_session,
                        project_path,
                    )) is Some implies picked.contains(k) by {
                    if k < n - 1 {
                        assert(earlier.contains(k));
                        let q = choose|q: int| 0 <= q < earlier.len() && earlier[q] == k;
                        assert(picked[q] == k);
                    } else {
                        assert(picked[earlier.len() as int] == k);
                    }
                }
                assert forall|i: int| 0 <= i < picked.len() implies 0 <= #[trigger] picked[i] < n
                    && event_at(runs, event, picked[i], fallback_session, project_path) == Some(
                    found[i].1,
                ) && found[i].0 == payload_run(
                    usage_messages(event)[picked[i]],
                    event,
                    fallback_session,
                ) by {
                    if i < earlier.len() {
                        assert(picked[i] == earlier[i]);
                        assert(found[i] == before[i]);
                    }
                }
                assert forall|i: int, j: int| 0 <= i < j < picked.len() implies #[trigger] picked[i]
                    < #[trigger] picked[j] by {
                    assert(picked[i] == earlier[i]);
                    if j < earlier.len() {
                        assert(picked[j] == earlier[j]);
                    }
                }
                picked
            },
            None => earlier,
        }
    }
}

/// Of one row each usage event that has a record is counted once, in the order
/// of the row, under the run that it belongs to.
pub proof fn law_each_event_of_a_row_is_counted_once(
    runs: Seq<JsonView>,
    event: JsonView,
    fallback_session: Seq<char>,
    project_path: Seq<char>,
)
    ensures
        exists|picked: Seq<int>| #[trigger]
            reads_row(
                runs,
                event,
                fallback_session,
                project_path,
                event_records(runs, seq![event], fallback_session, project_path),
                usage_messages(event).len(),
                picked,
            ),
{
    let n = usage_messages(event).len();
    let picked = lemma_reads_row(runs, event, n, fallback_session, project_path);
    let row = payload_records(runs, event, n, fallback_session, project_path);
    assert(seq![event].drop_last() =~= Seq::empty());
    assert(event_records(runs, Seq::empty(), fallback_session, project_path) =~= Seq::empty());
    assert(event_records(runs, seq![event], fallback_session, project_path) =~= row);
    assert(reads_row(runs, event, fallback_session, project_path, row, n, picked));
}

/// The usage events of several rows are those of the one and then those of the
/// other.
pub proof fn law_rows_of_events_are_read_one_by_one(
    runs: Seq<JsonView>,
    a: Seq<JsonView>,
    b: Seq<JsonView>,
    fallback_session: Seq<char>,
    project_path: Seq<char>,
)
    ensures
        event_records(runs, a + b, fallback_session, project_path) == event_records(
            runs,
            a,
            fallback_session,
            project_path,
        ) + event_records(runs, b, fallback_session, project_path),
    decreases b.len(),
{
    let first = event_records(runs, a, fallback_session, project_path);
    if b.len() == 0 {
        assert(a + b =~= a);
        assert(first + Seq::<(Seq<char>, RecordView)>::empty() =~= first);
    } else {
        let rest = b.drop_last();
        law_rows_of_events_are_read_one_by_one(runs, a, rest, fallback_session, project_path);
        assert((a + b).drop_last() =~= a + rest);
        assert((a + b).last() == b.last());
        let before = event_records(runs, rest, fallback_session, project_path);
        let last = payload_records(
            runs,
            b.last(),
            usage_messages(b.last()).len(),
            fallback_session,
            project_path,
        );
        assert(first + before + last =~= first + (before + last));
    }
}

/// Whether the usage event at position `k` of row `e` gives the record, for
/// that run.
pub open spec fn is_event_record(
    runs: Seq<JsonView>,
    events: Seq<JsonView>,
    fallback_session: Seq<char>,
    project_path: Seq<char>,
    e: int,
    k: int,
    run: Seq<char>,
    record: RecordView,
) -> bool {
    &&& 0 <= e < events.len()
    &&& 0 <= k < usage_messages(events[e]).len()
    &&& event_at(runs, events[e], k, fallback_session, project_path) == Some(record)
    &&& run == payload_run(usage_messages(events[e])[k], events[e], fallback_session)
}

/// Whether one of the usage events has a record for that run.
pub open spec fn has_event(
    runs: Seq<JsonView>,
    events: Seq<JsonView>,
    fallback_session: Seq<char>,
    project_path: Seq<char>,
    run: Seq<char>,
) -> bool {
    exists|e: int, k: int, record: RecordView| #[trigger]
        is_event_record(runs, events, fallback_session, project_path, e, k, run, record)
}

proof fn lemma_found_is_event(
    runs: Seq<JsonView>,
    events: Seq<JsonView>,
    fallback_session: Seq<char>,
    project_path: Seq<char>,
    i: int,
) -> (place: (int, int))
    requires
        0 <= i < event_records(runs, events, fallback_session, project_path).len(),
    ensures
        is_event_record(
            runs,
            events,
            fallback_session,
            project_path,
            place.0,
            place.1,
            event_records(runs, events, fallback_session, project_path)[i].0,
            event_records(runs, events, fallback_session, project_path)[i].1,
        ),
    decreases events.len(),
{
    let found = event_records(runs, events, fallback_session, project_path);
    let rest = events.drop_last();
    let event = events.last();
    let n = usage_messages(event).len();
    let before = event_records(runs, rest, fallback_session, project_path);
    let row = payload_records(runs, event, n, fallback_session, project_path);
    if i < before.len() {
        let (e, k) = lemma_found_is_event(runs, rest, fallback_session, project_path, i);
        assert(found[i] == before[i]);
        assert(rest[e] == events[e]);
        (e, k)
    } else {
        let picked = lemma_reads_row(runs, event, n, fallback_session, project_path);
        let q = i - before.len();
        assert(found[i] == row[q]);
        assert(0 <= picked[q] < n);
        (events.len() - 1, picked[q])
    }
}

proof fn lemma_event_is_found(
    runs: Seq<JsonView>,
    events: Seq<JsonView>,
    fallback_session: Seq<char>,
    project_path: Seq<char>,
    e: int,
    k: int,
    run: Seq<char>,
    record: RecordView,
) -> (i: int)
    requires
        is_event_record(runs, events, fallback_session, project_path, e, k, run, record),
    ensures
        0 <= i < event_records(runs, events, fallback_session, project_path).len(),
        event_records(runs, events, fallback_session, project_path)[i] == (run, record),
    decreases events.len(),
{
    let found = event_records(runs, events, fallback_session, project_path);
    let rest = events.drop_last();
    let event = events.last();
    let n = usage_messages(event).len();
    let before = event_records(runs, rest, fallback_session, project_path);
    let row = payload_records(runs, event, n, fallback_session, project_path);
    if e < events.len() - 1 {
        assert(rest[e] == events[e]);
        let q = lemma_event_is_found(
            runs,
            rest,
            fallback_session,
            project_path,
            e,
            k,
            run,
            record,
        );
        assert(found[q] == before[q]);
        q
    } else {
        let picked = lemma_reads_row(runs, event, n, fallback_session, project_path);
        assert(event_at(runs, event, k, fallback_session, project_path) is Some);
        assert(picked.contains(k));
        let q = choose|q: int| 0 <= q < picked.len() && picked[q] == k;
        assert(row[q] == (run, record));
        assert(found[before.len() + q] == row[q]);
        before.len() + q
    }
}

proof fn lemma_covers_is_has_event(
    runs: Seq<JsonView>,
    events: Seq<JsonView>,
    fallback_session: Seq<char>,
    project_path: Seq<char>,
    run: Seq<char>,
)
    ensures
        covers(event_records(runs, events, fallback_session, project_path), run) <==> has_event(
            runs,
            events,
            fallback_session,
            project_path,
            run,
        ),
{
    let found = event_records(runs, events, fallback_session, project_path);
    if covers(found, run) {
        let i = choose|i: int| 0 <= i < found.len() && (#[trigger] found[i]).0 == run;
        let (e, k) = lemma_found_is_event(runs, events, fallback_session, project_path, i);
        assert(is_event_record(
            runs,
            events,
            fallback_session,
            project_path,
            e,
            k,
            run,
            found[i].1,
        ));
    }
    if has_event(runs, events, fallback_session, project_path, run) {
        let (e, k, record) = choose|e: int, k: int, record: RecordView| #[trigger]
            is_event_record(runs, events, fallback_session, project_path, e, k, run, record);
        let i = lemma_event_is_found(
            runs,
            events,
            fallback_session,
            project_path,
            e,
            k,
            run,
            record,
        );
        assert(found[i].0 == run);
    }
}

/// Whether a run has no usage events: it has no id, or none of the events has a
/// record for it.
pub open spec fn counts_itself(
    runs: Seq<JsonView>,
    events: Seq<JsonView>,
    fallback_session: Seq<char>,
    project_path: Seq<char>,
    run: JsonView,
) -> bool {
    match text_at(run, seq!["runId"@, "run_id"@]) {
        Some(id) => !has_event(runs, events, fallback_session, project_path, id),
        None => true,
    }
}

/// Each record of a catalog is that of a usage event, or that of a run without
/// usage events: no run is counted both by its events and by itself.
pub proof fn law_no_run_is_counted_twice(
    runs: Seq<JsonView>,
    events: Seq<JsonView>,
    fallback_session: Seq<char>,
    project_path: Seq<char>,
    i: int,
)
    requires
        0 <= i < index_records(runs, events, fallback_session, project_path).len(),
    ensures
        ({
            let record = index_records(runs, events, fallback_session, project_path)[i];
            ||| exists|e: int, k: int, run: Seq<char>| #[trigger]
                is_event_record(runs, events, fallback_session, project_path, e, k, run, record)
            ||| exists|q: int|
                0 <= q < runs.len() && sdk_run_record(
                    #[trigger] runs[q],
                    fallback_session,
                    project_path,
                ) == Some(record) && counts_itself(
                    runs,
                    events,
                    fallback_session,
                    project_path,
                    runs[q],
                )
        }),
{
    let found = event_records(runs, events, fallback_session, project_path);
    let record = index_records(runs, events, fallback_session, project_path)[i];
    if i < found.len() {
        assert(found[i].1 == record);
        let (e, k) = lemma_found_is_event(runs, events, fallback_session, project_path, i);
        assert(is_event_record(
            runs,
            events,
            fallback_session,
            project_path,
            e,
            k,
            found[i].0,
            record,
        ));
    } else {
        let covered = crate::sdk_index::runs_of(found);
        crate::sdk_index::law_usage_events_win(
            runs,
            covered,
            fallback_session,
            project_path,
            i - found.len(),
        );
        let own = uncovered_run_records(runs, covered, fallback_session, project_path);
        assert(own[i - found.len()] == record);
        let q = choose|q: int|
            0 <= q < runs.len() && !crate::sdk_index::is_covered(#[trigger] runs[q], covered)
                && sdk_run_record(runs[q], fallback_session, project_path) == Some(record);
        law_run_and_agent_are_named(runs[q]);
        match run_id(runs[q]) {
            Some(id) => {
                lemma_covers_is_has_event(runs, events, fallback_session, project_path, id);
            },
            None => {},
        }
        assert(counts_itself(runs, events, fallback_session, project_path, runs[q]));
    }
}

/// Each usage event with a record is counted in a catalog, and so is each run
/// without usage events that has a record.
pub proof fn law_every_turn_of_a_catalog_is_counted(
    runs: Seq<JsonView>,
    events: Seq<JsonView>,
    fallback_session: Seq<char>,
    project_path: Seq<char>,
    record: RecordView,
)
    requires
        (exists|e: int, k: int, run: Seq<char>| #[trigger]
            is_event_record(runs, events, fallback_session, project_path, e, k, run, record)) || (
        exists|q: int|
            0 <= q < runs.len() && sdk_run_record(
                #[trigger] runs[q],
                fallback_session,
                project_path,
            ) == Some(record) && counts_itself(
                runs,
                events,
                fallback_session,
                project_path,
                runs[q],
            )),
    ensures
        index_records(runs, events, fallback_session, project_path).contains(record),
{
    let found = event_records(runs, events, fallback_session, project_path);
    let all = index_records(runs, events, fallback_session, project_path);
    if exists|e: int, k: int, run: Seq<char>| #[trigger]
        is_event_record(runs, events, fallback_session, project_path, e, k, run, record) {
        let (e, k, run) = choose|e: int, k: int, run: Seq<char>| #[trigger]
            is_event_record(runs, events, fallback_session, project_path, e, k, run, record);
        let i = lemma_event_is_found(
            runs,
            events,
            fallback_session,
            project_path,
            e,
            k,
            run,
            record,
        );
        assert(all[i] == record);
    } else {
        let q = choose|q: int|
            0 <= q < runs.len() && sdk_run_record(
                #[trigger] runs[q],
                fallback_session,
                project_path,
            ) == Some(record) && counts_itself(
                runs,
                events,
                fallback_session,
                project_path,
                runs[q],
            );
        let covered = crate::sdk_index::runs_of(found);
        law_run_and_agent_are_named(runs[q]);
        match run_id(runs[q]) {
            Some(id) => {
                lemma_covers_is_has_event(runs, events, fallback_session, project_path, id);
            },
            None => {},
        }
        crate::sdk_index::law_other_runs_count(
            runs,
            covered,
            fallback_session,
            project_path,
            q,
        );
        let own = uncovered_run_records(runs, covered, fallback_session, project_path);
        let i = choose|i: int| 0 <= i < own.len() && own[i] == record;
        assert(all[found.len() + i] == record);
    }
}

/// In a catalog the records of the usage events stand first, in the order of
/// the events, and those of the other runs behind them, in the order of the
/// runs and each once.
pub proof fn law_events_come_before_runs(
    runs: Seq<JsonView>,
    events: Seq<JsonView>,
    fallback_session: Seq<char>,
    project_path: Seq<char>,
)
    ensures
        ({
            let found = event_records(runs, events, fallback_session, project_path);
            let all = index_records(runs, events, fallback_session, project_path);
            &&& found.len() <= all.len() <= found.len() + runs.len()
            &&& forall|i: int| 0 <= i < found.len() ==> #[trigger] all[i] == found[i].1
        }),
{
    let found = event_records(runs, events, fallback_session, project_path);
    lemma_no_more_records_than_runs(
        runs,
        crate::sdk_index::runs_of(found),
        fallback_session,
        project_path,
    );
}

proof fn lemma_no_more_records_than_runs(
    runs: Seq<JsonView>,
    covered: Set<Seq<char>>,
    fallback_session: Seq<char>,
    project_path: Seq<char>,
)
    ensures
        uncovered_run_records(runs, covered, fallback_session, project_path).len() <= runs.len(),
    decreases runs.len(),
{
    if runs.len() > 0 {
        lemma_no_more_records_than_runs(
            runs.drop_last(),
            covered,
            fallback_session,
            project_path,
        );
    }
}

/// Runs without usage events are read one list after the other.
pub proof fn law_uncovered_runs_are_read_one_by_one(
    a: Seq<JsonView>,
    b: Seq<JsonView>,
    covered: Set<Seq<char>>,
    fallback_session: Seq<char>,
    project_path: Seq<char>,
)
    ensures
        uncovered_run_records(a + b, covered, fallback_session, project_path)
            == uncovered_run_records(a, covered, fallback_session, project_path)
            + uncovered_run_records(b, covered, fallback_session, project_path),
        uncovered_row_records(a + b, covered, fallback_session, project_path)
            == uncovered_row_records(a, covered, fallback_session, project_path)
            + uncovered_row_records(b, covered, fallback_session, project_path),
    decreases b.len(),
{
    let first = uncovered_run_records(a, covered, fallback_session, project_path);
    let first_rows = uncovered_row_records(a, covered, fallback_session, project_path);
    if b.len() == 0 {
        assert(a + b =~= a);
        assert(first + Seq::<RecordView>::empty() =~= first);
        assert(first_rows + Seq::<RecordView>::empty() =~= first_rows);
    } else {
        let rest = b.drop_last();
        law_uncovered_runs_are_read_one_by_one(a, rest, covered, fallback_session, project_path);
        assert((a + b).drop_last() =~= a + rest);
        assert((a + b).last() == b.last());
        let before = uncovered_run_records(rest, covered, fallback_session, project_path);
        let rows = uncovered_row_records(rest, covered, fallback_session, project_path);
        let last = json_records(b.last(), fallback_session, project_path);
        match sdk_run_record(b.last(), fallback_session, project_path) {
            Some(record) => {
                assert((first + before).push(record) =~= first + before.push(record));
            },
            None => {},
        }
        assert(first_rows + rows + last =~= first_rows + (rows + last));
    }
}

/// The row of one run gives the records of its tree where the run has no usage
/// events, and nothing where it has.
pub proof fn law_row_counts_unless_its_run_has_events(
    run: JsonView,
    covered: Set<Seq<char>>,
    fallback_session: Seq<char>,
    project_path: Seq<char>,
)
    ensures
        ({
            let id = text_at(run, seq!["runId"@, "run_id"@]);
            let rows = uncovered_row_records(seq![run], covered, fallback_session, project_path);
            &&& id is Some && covered.contains(id->0) ==> rows.len() == 0
            &&& id is None || !covered.contains(id->0) ==> rows == json_records(
                run,
                fallback_session,
                project_path,
            )
        }),
{
    law_run_and_agent_are_named(run);
    let rows = json_records(run, fallback_session, project_path);
    assert(seq![run].drop_last() =~= Seq::empty());
    assert(seq![run].last() == run);
    assert(uncovered_row_records(Seq::empty(), covered, fallback_session, project_path)
        =~= Seq::empty());
    assert(Seq::<RecordView>::empty() + rows =~= rows);
}

/// A stored catalog gives the records of its usage events, in their order, and
/// then those of the rows of the runs that have none, here or elsewhere.
pub proof fn law_stored_catalog_counts_events_then_other_rows(
    runs: Seq<JsonView>,
    events: Seq<JsonView>,
    elsewhere: Set<Seq<char>>,
    covered: Set<Seq<char>>,
    fallback_session: Seq<char>,
    project_path: Seq<char>,
)
    requires
        forall|id: Seq<char>| #[trigger]
            covered.contains(id) <==> elsewhere.contains(id) || has_event(
                runs,
                events,
                fallback_session,
                project_path,
                id,
            ),
    ensures
        ({
            let found = event_records(runs, events, fallback_session, project_path);
            let n = found.len() as int;
            let all = catalog_records(runs, events, elsewhere, fallback_session, project_path);
            let rows = uncovered_row_records(runs, covered, fallback_session, project_path);
            &&& all.len() == n + rows.len()
            &&& forall|i: int| 0 <= i < n ==> #[trigger] all[i] == found[i].1
            &&& all.skip(n) == rows
        }),
{
    let found = event_records(runs, events, fallback_session, project_path);
    let union = elsewhere.union(crate::sdk_index::runs_of(found));
    assert forall|id: Seq<char>| #[trigger] union.contains(id) <==> covered.contains(id) by {
        lemma_covers_is_has_event(runs, events, fallback_session, project_path, id);
    }
    assert(union =~= covered);
    let all = catalog_records(runs, events, elsewhere, fallback_session, project_path);
    assert(all.skip(found.len() as int) =~= uncovered_row_records(
        runs,
        covered,
        fallback_session,
        project_path,
    ));
}

/// Each record of a catalog is dated by what it is of: a turn by its usage
/// event, else by the row around the event, else by its run; and a run without
/// usage events by the run itself.
pub proof fn law_turns_of_a_catalog_have_their_own_instant(
    runs: Seq<JsonView>,
    events: Seq<JsonView>,
    fallback_session: Seq<char>,
    project_path: Seq<char>,
    i: int,
)
    requires
        0 <= i < index_records(runs, events, fallback_session, project_path).len(),
    ensures
        ({
            let instant = index_records(runs, events, fallback_session, project_path)[i].timestamp;
            ||| exists|e: int, k: int|
                {
                    &&& 0 <= e < events.len()
                    &&& 0 <= k < usage_messages(events[e]).len()
                    &&& recorded_instant(#[trigger] usage_messages(events[e])[k]) is Some
                        ==> recorded_instant(usage_messages(events[e])[k]) == Some(instant)
                    &&& recorded_instant(usage_messages(events[e])[k]) is None && recorded_instant(
                        events[e],
                    ) is Some ==> recorded_instant(events[e]) == Some(instant)
                    &&& recorded_instant(usage_messages(events[e])[k]) is None && recorded_instant(
                        events[e],
                    ) is None ==> exists|q: int|
                        0 <= q < runs.len() && recorded_instant(#[trigger] runs[q]) == Some(
                            instant,
                        )
                }
            ||| exists|q: int|
                0 <= q < runs.len() && recorded_instant(#[trigger] runs[q]) == Some(instant)
                    && counts_itself(runs, events, fallback_session, project_path, runs[q])
        }),
{
    let record = index_records(runs, events, fallback_session, project_path)[i];
    law_no_run_is_counted_twice(runs, events, fallback_session, project_path, i);
    if exists|e: int, k: int, run: Seq<char>| #[trigger]
        is_event_record(runs, events, fallback_session, project_path, e, k, run, record) {
        let (e, k, run) = choose|e: int, k: int, run: Seq<char>| #[trigger]
            is_event_record(runs, events, fallback_session, project_path, e, k, run, record);
        reveal(event_at);
        let payload = usage_messages(events[e])[k];
        law_event_is_dated_by_itself_then_its_row_then_its_run(
            payload,
            events[e],
            meta_of(runs, run, fallback_session),
            run,
            event_sequence(events[e]),
            k as nat,
            fallback_session,
            project_path,
        );
        law_last_row_of_a_run_lends(runs, run, fallback_session);
    } else {
        let q = choose|q: int|
            0 <= q < runs.len() && sdk_run_record(
                #[trigger] runs[q],
                fallback_session,
                project_path,
            ) == Some(record) && counts_itself(
                runs,
                events,
                fallback_session,
                project_path,
                runs[q],
            );
        crate::record_laws::law_run_record_says_what_the_run_says(
            runs[q],
            fallback_session,
            project_path,
        );
        assert(recorded_instant(runs[q]) == Some(record.timestamp));
    }
}

} // verus!
