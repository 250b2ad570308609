//! Laws of turns: two entries are of one turn where session, message and model
//! are the same, and of each turn one entry is loaded.

use vstd::prelude::*;

use crate::clock::{rfc3339_millis, zoned_date};
use crate::entry::{entries_of, entry_of, EntryView};
use crate::load_laws::{
    law_first_entry_stays, law_kept_entries_are_first, law_kept_turns_differ,
    law_loaded_turns_differ,
};
use crate::loader::{
    deduped, entry_key, has_key, is_new, sorts_by_instant, source_records, Sources,
};
use crate::parser::RecordView;
use crate::pricing::{cost_source, pricing_check, CostMode};

verus! {

/// Whether two entries are of one turn: both have a message id, and session,
/// message and model are the same, whatever their instants, counts and costs.
pub open spec fn same_turn(a: EntryView, b: EntryView) -> bool {
    &&& a.data.message.id is Some
    &&& a.data.message.id == b.data.message.id
    &&& a.session_id == b.session_id
    &&& a.model == b.model
}

/// Entries of one turn are not both kept, whatever their instants, counts and
/// costs.
pub proof fn law_one_entry_of_a_turn_is_kept(entries: Seq<EntryView>, i: int, j: int)
    requires
        0 <= i < j < deduped(entries).len(),
    ensures
        !same_turn(deduped(entries)[i], deduped(entries)[j]),
{
    law_kept_turns_differ(entries);
    let a = deduped(entries)[i];
    let b = deduped(entries)[j];
    if same_turn(a, b) {
        assert(entry_key(a) == entry_key(b));
        assert(entry_key(a) is Some);
    }
}

/// Of the entries that are loaded no two are of one turn: two that have the
/// same session, the same message and the same model are never both there,
/// whatever their instants, counts and costs.
pub proof fn law_one_entry_of_a_turn_is_loaded(
    sources: Sources,
    zone: jiff::tz::TimeZone,
    mode: CostMode,
    sorted: Seq<EntryView>,
    i: int,
    j: int,
)
    requires
        sorts_by_instant(deduped(entries_of(source_records(sources), zone, mode)), sorted),
        0 <= i < sorted.len(),
        0 <= j < sorted.len(),
        i != j,
    ensures
        !same_turn(sorted[i], sorted[j]),
        sorted[i].data.message.id == sorted[j].data.message.id && sorted[i].session_id
            == sorted[j].session_id ==> sorted[i].model != sorted[j].model,
{
    let entries = entries_of(source_records(sources), zone, mode);
    law_loaded_turns_differ(entries, sorted);
    let (a, b) = if i < j {
        (i, j)
    } else {
        (j, i)
    };
    if same_turn(sorted[a], sorted[b]) {
        assert(entry_key(sorted[a]) == entry_key(sorted[b]));
        assert(entry_key(sorted[a]) is Some);
    }
    lemma_loaded_entries_have_messages(sources, zone, mode, sorted, i);
}

proof fn lemma_loaded_entries_have_messages(
    sources: Sources,
    zone: jiff::tz::TimeZone,
    mode: CostMode,
    sorted: Seq<EntryView>,
    i: int,
)
    requires
        sorts_by_instant(deduped(entries_of(source_records(sources), zone, mode)), sorted),
        0 <= i < sorted.len(),
    ensures
        sorted[i].data.message.id is Some,
{
    let records = source_records(sources);
    let entries = entries_of(records, zone, mode);
    let kept = deduped(entries);
    assert(sorted.contains(sorted[i]));
    crate::load_laws::law_sorting_keeps_the_entries(kept, sorted, sorted[i]);
    let m = choose|m: int| 0 <= m < kept.len() && kept[m] == sorted[i];
    law_kept_entries_are_first(entries, m);
    let f = choose|f: int|
        0 <= f < entries.len() && #[trigger] entries[f] == kept[m] && is_new(
            entries.take(f),
            entries[f],
        );
    law_entry_says_what_the_record_says(records[f], zone, mode);
}

/// Each entry that is kept is the first of its turn.
pub proof fn law_the_first_of_a_turn_is_kept(entries: Seq<EntryView>, m: int)
    requires
        0 <= m < deduped(entries).len(),
    ensures
        exists|f: int|
            0 <= f < entries.len() && #[trigger] entries[f] == deduped(entries)[m] && forall|
                j: int,
            |
                0 <= j < f ==> !same_turn(#[trigger] entries[j], entries[f]),
{
    law_kept_entries_are_first(entries, m);
    let f = choose|f: int|
        0 <= f < entries.len() && #[trigger] entries[f] == deduped(entries)[m] && is_new(
            entries.take(f),
            entries[f],
        );
    assert forall|j: int| 0 <= j < f implies !same_turn(#[trigger] entries[j], entries[f]) by {
        if same_turn(entries[j], entries[f]) {
            assert(entry_key(entries[j]) == entry_key(entries[f]));
            assert(entries.take(f)[j] == entries[j]);
            assert(has_key(entries.take(f), entry_key(entries[f])->0));
        }
    }
}

/// Whether an entry has a model, and neither its session nor its message nor
/// its model holds a vertical bar.
pub open spec fn is_plain(entry: EntryView) -> bool {
    &&& !entry.session_id.contains('|')
    &&& entry.data.message.id matches Some(id) ==> !id.contains('|')
    &&& entry.model is Some
    &&& !entry.model->0.contains('|')
}

proof fn lemma_split_at_bar(a: Seq<char>, x: Seq<char>, b: Seq<char>, y: Seq<char>)
    requires
        a + "|"@ + x == b + "|"@ + y,
        !a.contains('|'),
        !b.contains('|'),
    ensures
        a == b,
        x == y,
{
    reveal_strlit("|");
    let s = a + "|"@ + x;
    let t = b + "|"@ + y;
    assert("|"@.len() == 1);
    assert(s.len() == a.len() + 1 + x.len());
    assert(t.len() == b.len() + 1 + y.len());
    assert(s[a.len() as int] == '|');
    assert(t[b.len() as int] == '|');
    if a.len() < b.len() {
        assert(t[a.len() as int] == b[a.len() as int]);
        assert(b.contains('|'));
    } else if b.len() < a.len() {
        assert(s[b.len() as int] == a[b.len() as int]);
        assert(a.contains('|'));
    }
    assert(a =~= s.take(a.len() as int));
    assert(b =~= t.take(b.len() as int));
    assert(x =~= s.skip(a.len() as int + 1));
    assert(y =~= t.skip(b.len() as int + 1));
}

proof fn lemma_plain_keys_tell_turns(a: EntryView, b: EntryView)
    requires
        is_plain(a),
        is_plain(b),
        entry_key(a) is Some,
        entry_key(a) == entry_key(b),
    ensures
        same_turn(a, b),
{
    let x = a.data.message.id->0;
    let y = b.data.message.id->0;
    let bar = "|"@;
    let left = x + bar + a.model->0;
    let right = y + bar + b.model->0;
    assert(entry_key(a)->0 =~= a.session_id + bar + left);
    assert(entry_key(b)->0 =~= b.session_id + bar + right);
    lemma_split_at_bar(a.session_id, left, b.session_id, right);
    lemma_split_at_bar(x, a.model->0, y, b.model->0);
}

/// No turn is lost: an entry that none before it is of one turn with is kept.
/// Entries whose names hold vertical bars are left out of this, for these join
/// the parts of a key.
pub proof fn law_a_turn_of_its_own_is_kept(entries: Seq<EntryView>, k: int)
    requires
        0 <= k < entries.len(),
        forall|i: int| 0 <= i <= k ==> is_plain(#[trigger] entries[i]),
        forall|j: int| 0 <= j < k ==> !same_turn(#[trigger] entries[j], entries[k]),
    ensures
        deduped(entries).contains(entries[k]),
{
    assert(is_new(entries.take(k), entries[k])) by {
        match entry_key(entries[k]) {
            Some(key) => {
                if has_key(entries.take(k), key) {
                    let j = choose|j: int|
                        0 <= j < k && entry_key(#[trigger] entries.take(k)[j]) == Some(key);
                    assert(entries.take(k)[j] == entries[j]);
                    lemma_plain_keys_tell_turns(entries[j], entries[k]);
                }
            },
            None => {},
        }
    }
    law_first_entry_stays(entries, k);
}

/// An entry without a message id is of no turn and is always kept.
pub proof fn law_entries_without_message_are_kept(entries: Seq<EntryView>, k: int)
    requires
        0 <= k < entries.len(),
        entries[k].data.message.id is None,
    ensures
        deduped(entries).contains(entries[k]),
{
    assert(is_new(entries.take(k), entries[k]));
    law_first_entry_stays(entries, k);
}

/// Whether the entries of `some` stand among `entries` at the given places, one
/// behind the other.
pub open spec fn stand_at(
    some: Seq<EntryView>,
    entries: Seq<EntryView>,
    places: Seq<int>,
) -> bool {
    &&& places.len() == some.len()
    &&& forall|i: int|
        0 <= i < places.len() ==> 0 <= #[trigger] places[i] < entries.len() && entries[places[i]]
            == some[i]
    &&& forall|i: int, j: int|
        0 <= i < j < places.len() ==> #[trigger] places[i] < #[trigger] places[j]
}

proof fn lemma_kept_places(entries: Seq<EntryView>) -> (places: Seq<int>)
    ensures
        stand_at(deduped(entries), entries, places),
    decreases entries.len(),
{
    if entries.len() == 0 {
        Seq::empty()
    } else {
        let rest = entries.drop_last();
        let earlier = lemma_kept_places(rest);
        assert forall|i: int| 0 <= i < earlier.len() implies entries[#[trigger] earlier[i]]
            == deduped(rest)[i] by {
            assert(rest[earlier[i]] == entries[earlier[i]]);
        }
        if is_new(rest, entries.last()) {
            earlier.push(entries.len() - 1)
        } else {
            earlier
        }
    }
}

/// What is kept stands in the order in which it stood before, and nothing is
/// kept more often than it was there.
pub proof fn law_kept_entries_keep_their_order(entries: Seq<EntryView>)
    ensures
        exists|places: Seq<int>| #[trigger] stand_at(deduped(entries), entries, places),
{
    let places = lemma_kept_places(entries);
    assert(stand_at(deduped(entries), entries, places));
}

/// An entry says what its record says: instant, session, project, model,
/// message, counts and recorded amount are those of the record, its date is that
/// of the instant in the time zone, and its project is `cursor`.
pub proof fn law_entry_says_what_the_record_says(
    record: RecordView,
    zone: jiff::tz::TimeZone,
    mode: CostMode,
)
    ensures
        ({
            let entry = entry_of(record, zone, mode);
            &&& entry.timestamp == record.timestamp
            &&& entry.date == zoned_date(record.timestamp, zone)
            &&& entry.data.timestamp == rfc3339_millis(record.timestamp)
            &&& entry.project == "cursor"@
            &&& entry.project_path == record.project_path
            &&& entry.session_id == record.session_id
            &&& entry.data.session_id == Some(record.session_id)
            &&& entry.model == Some(record.model)
            &&& entry.data.message.model == Some(record.model)
            &&& entry.data.message.id == Some(record.message_id)
            &&& entry.data.request_id == Some(record.message_id)
            &&& entry.data.message.usage == record.usage
            &&& entry.data.cost_usd == record.cost_usd
            &&& entry.cost == cost_source(record, mode)
            &&& entry.missing_pricing == pricing_check(record, mode)
            &&& entry.extra_total_tokens == 0
            &&& entry.credits is None
            &&& entry.message_count is None
            &&& entry.usage_limit_reset_time is None
            &&& entry.data.version is None
            &&& entry.data.is_api_error_message is None
            &&& entry.data.is_sidechain is None
        }),
{
}

/// Each record has one entry, in the order of the records.
pub proof fn law_each_record_has_an_entry(
    records: Seq<RecordView>,
    zone: jiff::tz::TimeZone,
    mode: CostMode,
)
    ensures
        entries_of(records, zone, mode).len() == records.len(),
        forall|i: int|
            0 <= i < records.len() ==> {
                let entry = #[trigger] entries_of(records, zone, mode)[i];
                &&& entry.timestamp == records[i].timestamp
                &&& entry.session_id == records[i].session_id
                &&& entry.model == Some(records[i].model)
                &&& entry.data.message.id == Some(records[i].message_id)
                &&& entry.data.message.usage == records[i].usage
            },
{
}

} // verus!
