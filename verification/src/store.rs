//! CLI and ACP `store.db` payloads: session metadata and blobs.

use vstd::prelude::*;

use crate::codec::{coerce_json_value, coerced};
use crate::json::{json_string, member, names, text_at, Json, JsonView};
use crate::parser::{
    agent_id, agent_id_of, all_carry_usage, carries_usage, collect_records, copy_opt,
    law_session_changes_no_count, law_tree_records_carry_usage, record_views, recorded_instant,
    same_turn_usage, same_usage, timestamp_from_value, tree_records, CursorUsageRecord,
    IdentityView, InheritedIdentity, RecordView,
};
use crate::text::opt_text;

verus! {

/// What the `meta` table says of a chat.
#[derive(Debug)]
pub struct StoreSessionMeta {
    pub agent_id: Option<String>,
    pub model: Option<String>,
    pub timestamp: Option<i64>,
}

/// The mathematical view of chat metadata.
#[verifier::ext_equal]
pub struct StoreMetaView {
    pub agent_id: Option<Seq<char>>,
    pub model: Option<Seq<char>>,
    pub timestamp: Option<i64>,
}

impl View for StoreSessionMeta {
    type V = StoreMetaView;

    open spec fn view(&self) -> StoreMetaView {
        StoreMetaView {
            agent_id: opt_text(self.agent_id),
            model: opt_text(self.model),
            timestamp: self.timestamp,
        }
    }
}

pub open spec fn meta_model_keys() -> Seq<Seq<char>> {
    seq!["lastUsedModel"@, "last_used_model"@, "model"@]
}

/// The object that carries the metadata: the one that the member `value`
/// spells, plainly or in hexadecimal, else the row itself.
pub open spec fn meta_object(v: JsonView) -> Option<JsonView> {
    match member(v, "value"@) {
        Some(inner) => if coerced(inner) is Object {
            Some(coerced(inner))
        } else {
            Some(v)
        },
        None => if v is Object {
            Some(v)
        } else {
            None
        },
    }
}

/// The metadata that an object carries, if it names an agent, a model or an
/// instant.
pub open spec fn store_meta_of(object: JsonView) -> Option<StoreMetaView> {
    let meta = StoreMetaView {
        agent_id: agent_id(object),
        model: text_at(object, meta_model_keys()),
        timestamp: recorded_instant(object),
    };
    if meta.agent_id is None && meta.model is None && meta.timestamp is None {
        None
    } else {
        Some(meta)
    }
}

/// The metadata of a chat.
pub open spec fn store_meta(v: JsonView) -> Option<StoreMetaView> {
    match meta_object(v) {
        Some(object) => store_meta_of(object),
        None => None,
    }
}

/// The view of metadata that may be absent.
pub open spec fn opt_meta(meta: Option<StoreSessionMeta>) -> Option<StoreMetaView> {
    match meta {
        Some(m) => Some(m@),
        None => None,
    }
}

/// The view of metadata that may be absent, by reference.
pub open spec fn opt_meta_ref(meta: Option<&StoreSessionMeta>) -> Option<StoreMetaView> {
    match meta {
        Some(m) => Some(m@),
        None => None,
    }
}

fn meta_from_object(object: &Json) -> (meta: Option<StoreSessionMeta>)
    ensures
        opt_meta(meta) == store_meta_of(object@),
{
    let keys = ["lastUsedModel", "last_used_model", "model"];
    proof {
        assert(names(keys@) =~= meta_model_keys());
    }
    let agent_id = agent_id_of(object);
    let model = json_string(object, &keys);
    let timestamp = timestamp_from_value(object);
    if agent_id.is_none() && model.is_none() && timestamp.is_none() {
        None
    } else {
        Some(StoreSessionMeta { agent_id, model, timestamp })
    }
}

/// Reads the `meta` JSON of a chat, plain or in hexadecimal.
pub fn store_session_meta_from_value(value: &Json) -> (meta: Option<StoreSessionMeta>)
    ensures
        opt_meta(meta) == store_meta(value@),
{
    match value.get("value") {
        Some(inner) => {
            let decoded = coerce_json_value(inner);
            if decoded.is_object() {
                meta_from_object(&decoded)
            } else {
                meta_from_object(value)
            }
        },
        None => if value.is_object() {
            meta_from_object(value)
        } else {
            None
        },
    }
}

/// The session of the records of a chat: the folder's where it is pinned, else
/// the agent that the metadata names, else the folder's.
pub open spec fn store_session(
    fallback_session: Seq<char>,
    meta: Option<StoreMetaView>,
    pin_session: bool,
) -> Seq<char> {
    if pin_session {
        fallback_session
    } else {
        match meta {
            Some(m) => match m.agent_id {
                Some(id) => if id.len() > 0 {
                    id
                } else {
                    fallback_session
                },
                None => fallback_session,
            },
            None => fallback_session,
        }
    }
}

/// The identity at the root of a blob of a chat.
pub open spec fn store_identity(
    fallback_session: Seq<char>,
    project_path: Seq<char>,
    meta: Option<StoreMetaView>,
    pin_session: bool,
) -> IdentityView {
    IdentityView {
        session: store_session(fallback_session, meta, pin_session),
        pin_session,
        model: None,
        model_id: None,
        used_model: match meta {
            Some(m) => m.model,
            None => None,
        },
        timestamp: match meta {
            Some(m) => m.timestamp,
            None => None,
        },
        project_path,
    }
}

/// A record with another session.
pub open spec fn with_session(record: RecordView, session: Seq<char>) -> RecordView {
    RecordView { session_id: session, ..record }
}

/// The records of a blob of a chat.
pub open spec fn store_records(
    v: JsonView,
    fallback_session: Seq<char>,
    project_path: Seq<char>,
    meta: Option<StoreMetaView>,
    pin_session: bool,
) -> Seq<RecordView> {
    let found = tree_records(
        v,
        store_identity(fallback_session, project_path, meta, pin_session),
    );
    if pin_session {
        Seq::new(found.len(), |i: int| with_session(found[i], fallback_session))
    } else {
        found
    }
}

/// Reads a blob of a CLI or ACP `store.db`, applying the chat's metadata.
///
/// When `pin_session` is set, the chat folder stays the session even if a blob
/// also carries an SDK agent id.
pub fn records_from_store_payload(
    value: &Json,
    fallback_session: &str,
    project_path: &str,
    meta: Option<&StoreSessionMeta>,
    pin_session: bool,
) -> (records: Vec<CursorUsageRecord>)
    ensures
        record_views(records@) == store_records(
            value@,
            fallback_session@,
            project_path@,
            opt_meta_ref(meta),
            pin_session,
        ),
{
    let session = if pin_session {
        fallback_session.to_owned()
    } else {
        match meta {
            Some(m) => match &m.agent_id {
                Some(id) => if id.as_str().is_empty() {
                    fallback_session.to_owned()
                } else {
                    id.clone()
                },
                None => fallback_session.to_owned(),
            },
            None => fallback_session.to_owned(),
        }
    };
    let used_model = match meta {
        Some(m) => copy_opt(&m.model),
        None => None,
    };
    let timestamp = match meta {
        Some(m) => m.timestamp,
        None => None,
    };
    let mut records: Vec<CursorUsageRecord> = Vec::new();
    let identity = InheritedIdentity {
        session: session.clone(),
        pin_session,
        model: None,
        model_id: None,
        used_model,
        timestamp,
        project_path: project_path.to_owned(),
    };
    let ghost found = tree_records(value@, identity@);
    proof {
        assert(identity@ == store_identity(
            fallback_session@,
            project_path@,
            opt_meta_ref(meta),
            pin_session,
        ));
        assert(record_views(records@) =~= Seq::<RecordView>::empty());
    }
    collect_records(value, identity, &mut records);
    proof {
        assert(Seq::<RecordView>::empty() + found =~= found);
    }
    if !pin_session {
        return records;
    }
    let mut pinned: Vec<CursorUsageRecord> = Vec::new();
    let ghost source = records@;
    for record in it: records
        invariant
            it.seq() == source,
            session@ == fallback_session@,
            record_views(source) == found,
            pinned@.len() == it.index(),
            forall|j: int|
                0 <= j < pinned@.len() ==> (#[trigger] pinned@[j])@ == with_session(
                    found[j],
                    fallback_session@,
                ),
    {
        proof {
            assert(record_views(source)[it.index() as int] == record@);
        }
        let mut record = record;
        record.session_id = session.clone();
        pinned.push(record);
    }
    proof {
        assert(record_views(source).len() == source.len());
        assert(record_views(pinned@) =~= store_records(
            value@,
            fallback_session@,
            project_path@,
            opt_meta_ref(meta),
            pin_session,
        ));
    }
    pinned
}

/// A pinned session is the session of every record of the blob.
pub proof fn law_pinned_session_wins(
    v: JsonView,
    fallback_session: Seq<char>,
    project_path: Seq<char>,
    meta: Option<StoreMetaView>,
    i: int,
)
    requires
        0 <= i < store_records(v, fallback_session, project_path, meta, true).len(),
    ensures
        store_records(v, fallback_session, project_path, meta, true)[i].session_id
            == fallback_session,
{
}

/// Pinning the session changes no count: the blob has the same records but for
/// their sessions and messages.
pub proof fn law_pinning_changes_no_count(
    v: JsonView,
    fallback_session: Seq<char>,
    project_path: Seq<char>,
    meta: Option<StoreMetaView>,
)
    ensures
        same_usage(
            store_records(v, fallback_session, project_path, meta, true),
            store_records(v, fallback_session, project_path, meta, false),
        ),
{
    let pinned = store_identity(fallback_session, project_path, meta, true);
    let free = store_identity(fallback_session, project_path, meta, false);
    law_session_changes_no_count(v, pinned, free);
    let found = tree_records(v, pinned);
    let all = store_records(v, fallback_session, project_path, meta, true);
    let others = store_records(v, fallback_session, project_path, meta, false);
    assert forall|i: int| 0 <= i < all.len() implies same_turn_usage(
        #[trigger] all[i],
        others[i],
    ) by {
        assert(same_turn_usage(found[i], others[i]));
    }
}

/// Only records that carry token counts are read from a blob, and each names a
/// model and belongs to the given project.
pub proof fn law_store_records_carry_usage(
    v: JsonView,
    fallback_session: Seq<char>,
    project_path: Seq<char>,
    meta: Option<StoreMetaView>,
    pin_session: bool,
)
    ensures
        all_carry_usage(
            store_records(v, fallback_session, project_path, meta, pin_session),
            project_path,
        ),
{
    let identity = store_identity(fallback_session, project_path, meta, pin_session);
    let found = tree_records(v, identity);
    law_tree_records_carry_usage(v, identity);
    let all = store_records(v, fallback_session, project_path, meta, pin_session);
    assert forall|i: int| 0 <= i < all.len() implies carries_usage(
        #[trigger] all[i],
        project_path,
    ) by {
        assert(carries_usage(found[i], project_path));
    }
}

} // verus!
