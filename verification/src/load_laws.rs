//! Laws of loading: which records are counted, which entry of a turn stays and
//! in what order entries come.

use vstd::prelude::*;

use crate::discovery::{
    any_source, law_listed_dbs_are_data, law_listed_lines_are_data, lists_dbs, lists_ndjson,
    CursorDbKind, CursorNdjsonKind, DbView, NdjsonView, RootListing,
};
use crate::entry::{entries_of, EntryView};
use crate::json::JsonView;
use crate::loader::{
    all_db_records, all_ndjson_records, catalog_events, catalog_runs, covered_by_catalogs,
    covered_by_logs, db_records, db_records_with, deduped, entry_key, file_records, file_values,
    has_key, instants, is_catalog, is_new, lemma_entries_append, ndjson_records,
    records_of_dbs, records_of_lines, row_records, rows_beside, sorts_by_instant, source_records,
    table_records, table_values, tables_records, values_beside, DbContents, NdjsonContents, Sources,
    Table,
};
use crate::order::{comes_before, is_stable_order, lemma_order_is_distinct, lists, reordered};
use crate::parser::{
    agent_id, all_carry_usage, carries_usage, json_records, law_tree_records_carry_usage,
    lemma_carry_usage_append, root_identity, run_id, sdk_run_record, RecordView,
};
use crate::paths::path_identity;
use crate::pricing::CostMode;
use crate::sdk_index::{
    index_records, law_catalog_is_the_index, law_catalog_records_carry_usage,
    law_more_events_only_take_rows, law_rows_are_read_one_by_one, lemma_plain_events_carry_usage,
    lemma_rows_carry_usage, lemma_uncovered_rows_count, plain_records, runs_of,
    uncovered_row_records,
};
use crate::source_laws::law_lines_are_read_in_order;
use crate::source_path::PartView;
use crate::table::{row_members, Row};
use crate::text::{law_pieces_of_joined_text, pieces};
use crate::usage::has_tokens;

verus! {

/// Loaded entries stand in the order of their instants.
pub proof fn law_entries_are_in_order(entries: Seq<EntryView>, sorted: Seq<EntryView>)
    requires
        sorts_by_instant(entries, sorted),
    ensures
        forall|i: int, j: int|
            0 <= i < j < sorted.len() ==> (#[trigger] sorted[i]).timestamp <= (
            #[trigger] sorted[j]).timestamp,
{
    let keys = instants(entries);
    let order = choose|order: Seq<usize>| #[trigger]
        is_stable_order(keys, false, order) && sorted == reordered(entries, order);
    assert forall|i: int, j: int| 0 <= i < j < sorted.len() implies (
    #[trigger] sorted[i]).timestamp <= (#[trigger] sorted[j]).timestamp by {
        assert(comes_before(keys, false, order[i] as int, order[j] as int));
        assert(keys[order[i] as int] == sorted[i].timestamp);
        assert(keys[order[j] as int] == sorted[j].timestamp);
    }
}

/// Sorting neither adds nor loses an entry.
pub proof fn law_sorting_keeps_the_entries(
    entries: Seq<EntryView>,
    sorted: Seq<EntryView>,
    entry: EntryView,
)
    requires
        sorts_by_instant(entries, sorted),
    ensures
        sorted.len() == entries.len(),
        sorted.contains(entry) <==> entries.contains(entry),
{
    let keys = instants(entries);
    let order = choose|order: Seq<usize>| #[trigger]
        is_stable_order(keys, false, order) && sorted == reordered(entries, order);
    if sorted.contains(entry) {
        let i = choose|i: int| 0 <= i < sorted.len() && sorted[i] == entry;
        assert(entries[order[i] as int] == entry);
    }
    if entries.contains(entry) {
        let k = choose|k: int| 0 <= k < entries.len() && entries[k] == entry;
        assert(lists(order, k));
        let i = choose|i: int| 0 <= i < order.len() && #[trigger] order[i] == k;
        assert(sorted[i] == entry);
    }
}

/// Whether no two of the entries are of one turn.
pub open spec fn turns_differ(entries: Seq<EntryView>) -> bool {
    forall|i: int, j: int|
        0 <= i < j < entries.len() && entry_key(#[trigger] entries[i]) is Some ==> entry_key(
            entries[i],
        ) != entry_key(#[trigger] entries[j])
}

/// No turn that was recorded is lost: each is among the entries that stay.
pub proof fn law_every_turn_is_kept(entries: Seq<EntryView>, key: Seq<char>)
    ensures
        has_key(deduped(entries), key) <==> has_key(entries, key),
    decreases entries.len(),
{
    if entries.len() > 0 {
        let rest = entries.drop_last();
        let last = entries.last();
        let kept = deduped(entries);
        let before = deduped(rest);
        law_every_turn_is_kept(rest, key);
        if has_key(entries, key) {
            let i = choose|i: int|
                0 <= i < entries.len() && entry_key(#[trigger] entries[i]) == Some(key);
            if i < rest.len() {
                assert(rest[i] == entries[i]);
                assert(has_key(rest, key));
            }
            if has_key(rest, key) {
                let j = choose|j: int|
                    0 <= j < before.len() && entry_key(#[trigger] before[j]) == Some(key);
                assert(kept[j] == before[j]);
            } else {
                assert(is_new(rest, last));
                assert(kept[before.len() as int] == last);
            }
        }
        if has_key(kept, key) {
            let j = choose|j: int|
                0 <= j < kept.len() && entry_key(#[trigger] kept[j]) == Some(key);
            if j < before.len() {
                assert(before[j] == kept[j]);
                let i = choose|i: int|
                    0 <= i < rest.len() && entry_key(#[trigger] rest[i]) == Some(key);
                assert(entries[i] == rest[i]);
            } else {
                assert(entries[entries.len() - 1] == last);
            }
        }
    }
}

/// Of the entries of one turn only one stays.
pub proof fn law_kept_turns_differ(entries: Seq<EntryView>)
    ensures
        turns_differ(deduped(entries)),
    decreases entries.len(),
{
    if entries.len() > 0 {
        let rest = entries.drop_last();
        let last = entries.last();
        let before = deduped(rest);
        let kept = deduped(entries);
        law_kept_turns_differ(rest);
        assert forall|i: int, j: int|
            0 <= i < j < kept.len() && entry_key(#[trigger] kept[i]) is Some implies entry_key(
            kept[i],
        ) != entry_key(#[trigger] kept[j]) by {
            assert(before[i] == kept[i]);
            if j < before.len() {
                assert(before[j] == kept[j]);
            } else if entry_key(kept[i]) == entry_key(kept[j]) {
                let key = entry_key(last)->0;
                assert(has_key(before, key));
                law_every_turn_is_kept(rest, key);
            }
        }
    }
}

/// The first entry of each turn stays.
pub proof fn law_first_entry_stays(entries: Seq<EntryView>, k: int)
    requires
        0 <= k < entries.len(),
        is_new(entries.take(k), entries[k]),
    ensures
        deduped(entries).contains(entries[k]),
    decreases entries.len(),
{
    let rest = entries.drop_last();
    let before = deduped(rest);
    let kept = deduped(entries);
    if k < rest.len() {
        assert(rest.take(k) =~= entries.take(k));
        law_first_entry_stays(rest, k);
        let j = choose|j: int| 0 <= j < before.len() && before[j] == entries[k];
        assert(kept[j] == entries[k]);
    } else {
        assert(entries.take(k) =~= rest);
        assert(kept[before.len() as int] == entries[k]);
    }
}

/// Entries of different turns all stay, so dropping repeated entries twice
/// changes nothing.
pub proof fn law_dedupe_is_stable(entries: Seq<EntryView>)
    ensures
        deduped(deduped(entries)) == deduped(entries),
{
    law_kept_turns_differ(entries);
    lemma_distinct_entries_stay(deduped(entries));
}

proof fn lemma_distinct_entries_stay(entries: Seq<EntryView>)
    requires
        turns_differ(entries),
    ensures
        deduped(entries) == entries,
    decreases entries.len(),
{
    if entries.len() > 0 {
        let rest = entries.drop_last();
        assert forall|i: int, j: int|
            0 <= i < j < rest.len() && entry_key(#[trigger] rest[i]) is Some implies entry_key(
            rest[i],
        ) != entry_key(#[trigger] rest[j]) by {
            assert(entry_key(entries[i]) != entry_key(entries[j]));
        }
        lemma_distinct_entries_stay(rest);
        match entry_key(entries.last()) {
            Some(key) => {
                if has_key(rest, key) {
                    let i = choose|i: int|
                        0 <= i < rest.len() && entry_key(#[trigger] rest[i]) == Some(key);
                    assert(entry_key(entries[i]) != entry_key(entries[entries.len() - 1]));
                }
            },
            None => {},
        }
        assert(rest.push(entries.last()) =~= entries);
    } else {
        assert(deduped(entries) =~= entries);
    }
}

/// No two loaded entries are of one turn.
pub proof fn law_loaded_turns_differ(entries: Seq<EntryView>, sorted: Seq<EntryView>)
    requires
        sorts_by_instant(deduped(entries), sorted),
    ensures
        turns_differ(sorted),
{
    let kept = deduped(entries);
    let keys = instants(kept);
    law_kept_turns_differ(entries);
    let order = choose|order: Seq<usize>| #[trigger]
        is_stable_order(keys, false, order) && sorted == reordered(kept, order);
    assert forall|i: int, j: int|
        0 <= i < j < sorted.len() && entry_key(#[trigger] sorted[i]) is Some implies entry_key(
        sorted[i],
    ) != entry_key(#[trigger] sorted[j]) by {
        lemma_order_is_distinct(keys, false, order, i, j);
        let a = order[i] as int;
        let b = order[j] as int;
        assert(sorted[i] == kept[a]);
        assert(sorted[j] == kept[b]);
        if entry_key(sorted[i]) == entry_key(sorted[j]) {
            if a < b {
                assert(entry_key(kept[a]) != entry_key(kept[b]));
            } else {
                assert(entry_key(kept[b]) != entry_key(kept[a]));
            }
        }
    }
}

/// Sorting keeps the order of two entries of one instant.
pub proof fn law_one_instant_keeps_its_order(
    entries: Seq<EntryView>,
    sorted: Seq<EntryView>,
    i: int,
    j: int,
)
    requires
        sorts_by_instant(entries, sorted),
        0 <= i < j < entries.len(),
        entries[i].timestamp == entries[j].timestamp,
    ensures
        exists|a: int, b: int|
            0 <= a < b < sorted.len() && #[trigger] sorted[a] == entries[i]
                && #[trigger] sorted[b] == entries[j],
{
    let keys = instants(entries);
    let order = choose|order: Seq<usize>| #[trigger]
        is_stable_order(keys, false, order) && sorted == reordered(entries, order);
    assert(lists(order, i));
    assert(lists(order, j));
    let a = choose|a: int| 0 <= a < order.len() && #[trigger] order[a] == i;
    let b = choose|b: int| 0 <= b < order.len() && #[trigger] order[b] == j;
    if b < a {
        assert(comes_before(keys, false, order[b] as int, order[a] as int));
    }
    assert(sorted[a] == entries[i]);
    assert(sorted[b] == entries[j]);
}

/// The records of all databases stand before the records of all JSON lines.
pub proof fn law_databases_come_first(sources: Sources)
    ensures
        ({
            let n = records_of_dbs(sources).len() as int;
            &&& source_records(sources).take(n) == records_of_dbs(sources)
            &&& source_records(sources).skip(n) == records_of_lines(sources)
        }),
{
    let n = records_of_dbs(sources).len() as int;
    assert(source_records(sources).take(n) =~= records_of_dbs(sources));
    assert(source_records(sources).skip(n) =~= records_of_lines(sources));
}

/// The records of databases stand in the order of the databases.
pub proof fn law_databases_keep_their_order(
    dbs: Seq<DbContents>,
    files: Seq<NdjsonContents>,
    before: Seq<DbContents>,
    after: Seq<DbContents>,
)
    ensures
        all_db_records(dbs, files, before + after) == all_db_records(dbs, files, before)
            + all_db_records(dbs, files, after),
    decreases after.len(),
{
    let first = all_db_records(dbs, files, before);
    if after.len() == 0 {
        assert(before + after =~= before);
        assert(first + Seq::<RecordView>::empty() =~= first);
    } else {
        let rest = after.drop_last();
        let last = db_records_with(
            after.last(),
            covered_by_logs(dbs, files, files, after.last().path@),
        );
        law_databases_keep_their_order(dbs, files, before, rest);
        assert((before + after).drop_last() =~= before + rest);
        assert(first + all_db_records(dbs, files, rest) + last =~= first + (all_db_records(
            dbs,
            files,
            rest,
        ) + last));
    }
}

/// The records of JSON lines stand in the order of their files.
pub proof fn law_line_files_keep_their_order(
    dbs: Seq<DbContents>,
    files: Seq<NdjsonContents>,
    before: Seq<NdjsonContents>,
    after: Seq<NdjsonContents>,
)
    ensures
        all_ndjson_records(dbs, files, before + after) == all_ndjson_records(dbs, files, before)
            + all_ndjson_records(dbs, files, after),
    decreases after.len(),
{
    let first = all_ndjson_records(dbs, files, before);
    if after.len() == 0 {
        assert(before + after =~= before);
        assert(first + Seq::<RecordView>::empty() =~= first);
    } else {
        let rest = after.drop_last();
        let last = file_records(dbs, files, after.last());
        law_line_files_keep_their_order(dbs, files, before, rest);
        assert((before + after).drop_last() =~= before + rest);
        assert(first + all_ndjson_records(dbs, files, rest) + last =~= first + (
        all_ndjson_records(dbs, files, rest) + last));
    }
}

/// Each entry that stays is the first of its turn.
pub proof fn law_kept_entries_are_first(entries: Seq<EntryView>, m: int)
    requires
        0 <= m < deduped(entries).len(),
    ensures
        exists|f: int|
            0 <= f < entries.len() && #[trigger] entries[f] == deduped(entries)[m] && is_new(
                entries.take(f),
                entries[f],
            ),
    decreases entries.len(),
{
    let rest = entries.drop_last();
    let before = deduped(rest);
    if m < before.len() {
        law_kept_entries_are_first(rest, m);
        let f = choose|f: int|
            0 <= f < rest.len() && #[trigger] rest[f] == before[m] && is_new(rest.take(f), rest[f]);
        assert(entries.take(f) =~= rest.take(f));
        assert(entries[f] == deduped(entries)[m]);
    } else {
        assert(entries.take(entries.len() - 1) =~= rest);
        assert(entries[entries.len() - 1] == deduped(entries)[m]);
    }
}

/// Where a database and JSON lines hold entries of one turn, the entry that
/// stays is of a database.
pub proof fn law_database_wins_over_lines(
    sources: Sources,
    zone: jiff::tz::TimeZone,
    mode: CostMode,
    key: Seq<char>,
    m: int,
)
    requires
        has_key(entries_of(records_of_dbs(sources), zone, mode), key),
        0 <= m < deduped(entries_of(source_records(sources), zone, mode)).len(),
        entry_key(deduped(entries_of(source_records(sources), zone, mode))[m]) == Some(key),
    ensures
        entries_of(records_of_dbs(sources), zone, mode).contains(
            deduped(entries_of(source_records(sources), zone, mode))[m],
        ),
{
    let first = entries_of(records_of_dbs(sources), zone, mode);
    let entries = entries_of(source_records(sources), zone, mode);
    let kept = deduped(entries);
    lemma_entries_append(records_of_dbs(sources), records_of_lines(sources), zone, mode);
    law_kept_entries_are_first(entries, m);
    let f = choose|f: int|
        0 <= f < entries.len() && #[trigger] entries[f] == kept[m] && is_new(
            entries.take(f),
            entries[f],
        );
    if f >= first.len() {
        let i = choose|i: int| 0 <= i < first.len() && entry_key(#[trigger] first[i]) == Some(key);
        assert(entry_key(entries.take(f)[i]) == Some(key));
        assert(has_key(entries.take(f), key));
    }
    assert(first[f] == kept[m]);
}

/// Dropping repeated entries works from the front: what follows some entries
/// changes nothing in what stays of them.
pub proof fn law_later_entries_change_nothing(first: Seq<EntryView>, later: Seq<EntryView>)
    ensures
        deduped(first).len() <= deduped(first + later).len(),
        deduped(first + later).take(deduped(first).len() as int) == deduped(first),
    decreases later.len(),
{
    let kept = deduped(first);
    if later.len() == 0 {
        assert(first + later =~= first);
        assert(kept.take(kept.len() as int) =~= kept);
    } else {
        let rest = later.drop_last();
        law_later_entries_change_nothing(first, rest);
        assert((first + later).drop_last() =~= first + rest);
        assert(deduped(first + later).take(kept.len() as int) =~= deduped(first + rest).take(
            kept.len() as int,
        ));
    }
}

/// Of two loaded entries of one instant, one of a database and one of JSON
/// lines, the one of the database comes first.
pub proof fn law_databases_come_first_at_one_instant(
    sources: Sources,
    zone: jiff::tz::TimeZone,
    mode: CostMode,
    sorted: Seq<EntryView>,
    i: int,
    j: int,
)
    requires
        sorts_by_instant(deduped(entries_of(source_records(sources), zone, mode)), sorted),
        0 <= i < deduped(entries_of(records_of_dbs(sources), zone, mode)).len() <= j < deduped(
            entries_of(source_records(sources), zone, mode),
        ).len(),
        deduped(entries_of(records_of_dbs(sources), zone, mode))[i].timestamp == deduped(
            entries_of(source_records(sources), zone, mode),
        )[j].timestamp,
    ensures
        exists|a: int, b: int|
            0 <= a < b < sorted.len() && #[trigger] sorted[a] == deduped(
                entries_of(records_of_dbs(sources), zone, mode),
            )[i] && #[trigger] sorted[b] == deduped(
                entries_of(source_records(sources), zone, mode),
            )[j],
{
    let first = entries_of(records_of_dbs(sources), zone, mode);
    let entries = entries_of(source_records(sources), zone, mode);
    lemma_entries_append(records_of_dbs(sources), records_of_lines(sources), zone, mode);
    law_later_entries_change_nothing(
        first,
        entries_of(records_of_lines(sources), zone, mode),
    );
    assert(deduped(entries).take(deduped(first).len() as int)[i] == deduped(entries)[i]);
    law_one_instant_keeps_its_order(deduped(entries), sorted, i, j);
}

/// Of a database nothing is read that it does not hold itself: usage events
/// elsewhere only take rows away.
pub proof fn law_database_records_are_its_own(db: DbContents, elsewhere: Set<Seq<char>>, i: int)
    requires
        0 <= i < db_records_with(db, elsewhere).len(),
    ensures
        db_records(db).contains(db_records_with(db, elsewhere)[i]),
{
    let (session, project) = path_identity(db.path@);
    let records = db_records_with(db, elsewhere);
    if is_catalog(db) {
        let runs = catalog_runs(db);
        let found = catalog_events(db);
        let first = plain_records(found);
        if i < first.len() {
            assert(db_records(db)[i] == records[i]);
        } else {
            let k = i - first.len();
            let less = Set::empty().union(runs_of(found));
            let more = elsewhere.union(runs_of(found));
            law_more_events_only_take_rows(runs, less, more, session, project, k);
            let rows = uncovered_row_records(runs, less, session, project);
            let x = choose|x: int| 0 <= x < rows.len() && rows[x] == records[i];
            assert(db_records(db)[first.len() + x] == records[i]);
        }
    } else {
        assert(db_records(db)[i] == records[i]);
    }
}

/// Of a file of runs nothing is read that it does not hold itself.
pub proof fn law_line_records_are_their_own(
    dbs: Seq<DbContents>,
    files: Seq<NdjsonContents>,
    file: NdjsonContents,
    i: int,
)
    requires
        file.kind == CursorNdjsonKind::Runs,
        0 <= i < file_records(dbs, files, file).len(),
    ensures
        ndjson_records(file).contains(file_records(dbs, files, file)[i]),
{
    let (session, project) = path_identity(file.path@);
    let values = file_values(file);
    let covered = covered_by_catalogs(dbs, file.path@).union(
        covered_by_logs(dbs, files, files, file.path@),
    );
    law_more_events_only_take_rows(values, Set::empty(), covered, session, project, i);
    lemma_uncovered_rows_count(values, session, project);
}

/// The records of some databases, each on its own.
pub open spec fn single_db_records(dbs: Seq<DbContents>) -> Seq<RecordView>
    decreases dbs.len(),
{
    if dbs.len() == 0 {
        Seq::empty()
    } else {
        single_db_records(dbs.drop_last()) + db_records(dbs.last())
    }
}

/// The records of some files of JSON lines, each on its own.
pub open spec fn single_ndjson_records(files: Seq<NdjsonContents>) -> Seq<RecordView>
    decreases files.len(),
{
    if files.len() == 0 {
        Seq::empty()
    } else {
        single_ndjson_records(files.drop_last()) + ndjson_records(files.last())
    }
}

/// Whether none of the files is a log of events.
pub open spec fn no_logs(files: Seq<NdjsonContents>) -> bool {
    forall|i: int| 0 <= i < files.len() ==> (#[trigger] files[i]).kind == CursorNdjsonKind::Runs
}

proof fn lemma_no_logs_cover_nothing(
    dbs: Seq<DbContents>,
    files: Seq<NdjsonContents>,
    some: Seq<NdjsonContents>,
    path: Seq<PartView>,
)
    requires
        no_logs(some),
    ensures
        covered_by_logs(dbs, files, some, path) == Set::<Seq<char>>::empty(),
    decreases some.len(),
{
    if some.len() > 0 {
        assert(some[some.len() - 1].kind == CursorNdjsonKind::Runs);
        lemma_no_logs_cover_nothing(dbs, files, some.drop_last(), path);
    }
}

proof fn lemma_no_events_cover_nothing(dbs: Seq<DbContents>, path: Seq<PartView>)
    requires
        forall|i: int| 0 <= i < dbs.len() ==> catalog_events(#[trigger] dbs[i]).len() == 0,
    ensures
        covered_by_catalogs(dbs, path) == Set::<Seq<char>>::empty(),
    decreases dbs.len(),
{
    if dbs.len() > 0 {
        let rest = dbs.drop_last();
        assert(catalog_events(dbs[dbs.len() - 1]).len() == 0);
        assert forall|i: int| 0 <= i < rest.len() implies catalog_events(
            #[trigger] rest[i],
        ).len() == 0 by {
            assert(catalog_events(dbs[i]).len() == 0);
        }
        lemma_no_events_cover_nothing(rest, path);
        assert(Set::<Seq<char>>::empty().union(runs_of(catalog_events(dbs.last())))
            =~= Set::empty());
    }
}

proof fn lemma_dbs_alone(dbs: Seq<DbContents>, files: Seq<NdjsonContents>, some: Seq<DbContents>)
    requires
        no_logs(files),
    ensures
        all_db_records(dbs, files, some) == single_db_records(some),
    decreases some.len(),
{
    if some.len() > 0 {
        lemma_dbs_alone(dbs, files, some.drop_last());
        lemma_no_logs_cover_nothing(dbs, files, files, some.last().path@);
    }
}

proof fn lemma_lines_alone(
    dbs: Seq<DbContents>,
    files: Seq<NdjsonContents>,
    some: Seq<NdjsonContents>,
)
    requires
        no_logs(files),
        no_logs(some),
        forall|i: int| 0 <= i < dbs.len() ==> catalog_events(#[trigger] dbs[i]).len() == 0,
    ensures
        all_ndjson_records(dbs, files, some) == single_ndjson_records(some),
    decreases some.len(),
{
    if some.len() > 0 {
        let file = some.last();
        let (session, project) = path_identity(file.path@);
        assert(some[some.len() - 1].kind == CursorNdjsonKind::Runs);
        lemma_lines_alone(dbs, files, some.drop_last());
        lemma_no_logs_cover_nothing(dbs, files, files, file.path@);
        lemma_no_events_cover_nothing(dbs, file.path@);
        assert(Set::<Seq<char>>::empty().union(Set::empty()) =~= Set::empty());
        lemma_uncovered_rows_count(file_values(file), session, project);
    }
}

/// Where there are no usage events beside the runs, the records of the sources
/// are those of each database and then those of each file of JSON lines, each
/// read on its own.
pub proof fn law_files_are_read_alone_without_events(sources: Sources)
    requires
        no_logs(sources.ndjson@),
        forall|i: int|
            0 <= i < sources.dbs@.len() ==> catalog_events(#[trigger] sources.dbs@[i]).len() == 0,
    ensures
        source_records(sources) == single_db_records(sources.dbs@) + single_ndjson_records(
            sources.ndjson@,
        ),
{
    lemma_dbs_alone(sources.dbs@, sources.ndjson@, sources.dbs@);
    lemma_lines_alone(sources.dbs@, sources.ndjson@, sources.ndjson@);
}

/// The records of a file of runs whose lines are those of two files are the
/// records of the one and then those of the other.
pub proof fn law_joined_lines_are_read_one_by_one(
    first: NdjsonContents,
    second: NdjsonContents,
    joined: NdjsonContents,
)
    requires
        first.text is Some,
        second.text is Some,
        joined.text is Some,
        joined.text->0@ == first.text->0@.push('\n') + second.text->0@,
        first.path@ == joined.path@,
        second.path@ == joined.path@,
        first.kind == CursorNdjsonKind::Runs,
        second.kind == CursorNdjsonKind::Runs,
        joined.kind == CursorNdjsonKind::Runs,
    ensures
        ndjson_records(joined) == ndjson_records(first) + ndjson_records(second),
{
    let (session, project) = path_identity(joined.path@);
    let a = first.text->0@;
    let b = second.text->0@;
    law_pieces_of_joined_text(a, b, '\n');
    law_lines_are_read_in_order(pieces(a, '\n'), pieces(b, '\n'));
    law_rows_are_read_one_by_one(file_values(first), file_values(second), session, project);
}

/// The databases that the contents are of.
pub open spec fn dbs_of(sources: Sources) -> Seq<DbView> {
    Seq::new(
        sources.dbs@.len(),
        |i: int| DbView { path: sources.dbs@[i].path@, kind: sources.dbs@[i].kind },
    )
}

/// The files of JSON lines that the contents are of.
pub open spec fn ndjson_of(sources: Sources) -> Seq<NdjsonView> {
    Seq::new(
        sources.ndjson@.len(),
        |i: int| NdjsonView { path: sources.ndjson@[i].path@, kind: sources.ndjson@[i].kind },
    )
}

/// Where entries are loaded from the files below some roots, these hold a file
/// that may record usage.
pub proof fn law_loaded_entries_show_data(
    roots: Seq<RootListing>,
    sources: Sources,
    zone: jiff::tz::TimeZone,
    mode: CostMode,
    sorted: Seq<EntryView>,
)
    requires
        lists_dbs(roots, dbs_of(sources)),
        lists_ndjson(roots, ndjson_of(sources)),
        sorts_by_instant(deduped(entries_of(source_records(sources), zone, mode)), sorted),
        sorted.len() > 0,
    ensures
        any_source(roots),
{
    law_sorting_keeps_the_entries(
        deduped(entries_of(source_records(sources), zone, mode)),
        sorted,
        sorted[0],
    );
    if sources.dbs@.len() > 0 {
        law_listed_dbs_are_data(roots, dbs_of(sources), CursorDbKind::Store);
    }
    if sources.ndjson@.len() > 0 {
        law_listed_lines_are_data(roots, ndjson_of(sources), CursorNdjsonKind::Runs);
    }
}

proof fn lemma_table_records_carry_usage(rows: Seq<Row>, session: Seq<char>, project: Seq<char>)
    ensures
        all_carry_usage(table_records(rows, session, project), project),
    decreases rows.len(),
{
    if rows.len() > 0 {
        let rest = rows.drop_last();
        lemma_table_records_carry_usage(rest, session, project);
        law_tree_records_carry_usage(
            JsonView::Object(row_members(rows.last()@)),
            root_identity(session, project),
        );
        lemma_carry_usage_append(
            table_records(rest, session, project),
            row_records(rows.last(), session, project),
            project,
        );
    }
}

proof fn lemma_tables_records_carry_usage(
    kind: CursorDbKind,
    tables: Seq<Table>,
    n: nat,
    session: Seq<char>,
    project: Seq<char>,
)
    ensures
        all_carry_usage(tables_records(kind, tables, n, session, project), project),
    decreases n,
{
    if n > 0 && n <= tables.len() {
        let before = tables_records(kind, tables, (n - 1) as nat, session, project);
        lemma_tables_records_carry_usage(kind, tables, (n - 1) as nat, session, project);
        lemma_table_records_carry_usage(tables[n - 1].rows@, session, project);
        lemma_carry_usage_append(
            before,
            table_records(tables[n - 1].rows@, session, project),
            project,
        );
    }
}

/// Each record of a database carries usage, of the project that the path of
/// the database tells.
pub proof fn law_db_records_carry_usage(db: DbContents, elsewhere: Set<Seq<char>>)
    ensures
        all_carry_usage(db_records_with(db, elsewhere), path_identity(db.path@).1),
{
    let (session, project) = path_identity(db.path@);
    match db.tables {
        Some(tables) => {
            law_catalog_records_carry_usage(
                table_values(tables@, "runs"@),
                table_values(tables@, "run_events"@),
                elsewhere,
                session,
                project,
            );
            lemma_tables_records_carry_usage(db.kind, tables@, tables@.len(), session, project);
        },
        None => {},
    }
}

/// Each record of a file of JSON lines carries usage, of the project that the
/// path of the file tells.
pub proof fn law_ndjson_records_carry_usage(
    dbs: Seq<DbContents>,
    files: Seq<NdjsonContents>,
    file: NdjsonContents,
)
    ensures
        all_carry_usage(file_records(dbs, files, file), path_identity(file.path@).1),
{
    let (session, project) = path_identity(file.path@);
    lemma_rows_carry_usage(
        file_values(file),
        covered_by_catalogs(dbs, file.path@).union(covered_by_logs(dbs, files, files, file.path@)),
        session,
        project,
    );
    lemma_plain_events_carry_usage(
        values_beside(files, file.path@, CursorNdjsonKind::Runs) + rows_beside(dbs, file.path@),
        file_values(file),
        session,
        project,
    );
}

/// Whether each of the records carries a token count that is not zero.
pub open spec fn all_have_tokens(records: Seq<RecordView>) -> bool {
    forall|i: int| 0 <= i < records.len() ==> has_tokens((#[trigger] records[i]).usage)
}

proof fn lemma_tokens_append(a: Seq<RecordView>, b: Seq<RecordView>, project: Seq<char>)
    requires
        all_have_tokens(a),
        all_carry_usage(b, project),
    ensures
        all_have_tokens(a + b),
{
    assert forall|i: int| 0 <= i < (a + b).len() implies has_tokens(
        (#[trigger] (a + b)[i]).usage,
    ) by {
        if i < a.len() {
            assert(has_tokens(a[i].usage));
        } else {
            assert(carries_usage(b[i - a.len()], project));
        }
    }
}

proof fn lemma_db_records_have_tokens(
    dbs: Seq<DbContents>,
    files: Seq<NdjsonContents>,
    some: Seq<DbContents>,
)
    ensures
        all_have_tokens(all_db_records(dbs, files, some)),
    decreases some.len(),
{
    if some.len() > 0 {
        let db = some.last();
        let elsewhere = covered_by_logs(dbs, files, files, db.path@);
        lemma_db_records_have_tokens(dbs, files, some.drop_last());
        law_db_records_carry_usage(db, elsewhere);
        lemma_tokens_append(
            all_db_records(dbs, files, some.drop_last()),
            db_records_with(db, elsewhere),
            path_identity(db.path@).1,
        );
    }
}

proof fn lemma_ndjson_records_have_tokens(
    before: Seq<RecordView>,
    dbs: Seq<DbContents>,
    files: Seq<NdjsonContents>,
    some: Seq<NdjsonContents>,
)
    requires
        all_have_tokens(before),
    ensures
        all_have_tokens(before + all_ndjson_records(dbs, files, some)),
    decreases some.len(),
{
    if some.len() == 0 {
        assert(before + all_ndjson_records(dbs, files, some) =~= before);
    } else {
        let file = some.last();
        let earlier = all_ndjson_records(dbs, files, some.drop_last());
        let more = file_records(dbs, files, file);
        lemma_ndjson_records_have_tokens(before, dbs, files, some.drop_last());
        law_ndjson_records_carry_usage(dbs, files, file);
        lemma_tokens_append(before + earlier, more, path_identity(file.path@).1);
        assert(before + earlier + more =~= before + (earlier + more));
    }
}

/// Only rows that carry token counts are counted: each record of the sources
/// has a count that is not zero.
pub proof fn law_all_records_have_tokens(sources: Sources)
    ensures
        all_have_tokens(source_records(sources)),
{
    let dbs = sources.dbs@;
    let files = sources.ndjson@;
    lemma_db_records_have_tokens(dbs, files, dbs);
    lemma_ndjson_records_have_tokens(records_of_dbs(sources), dbs, files, files);
}

/// Each loaded entry has a token count that is not zero.
pub proof fn law_loaded_entries_have_tokens(
    sources: Sources,
    zone: jiff::tz::TimeZone,
    mode: CostMode,
    sorted: Seq<EntryView>,
    i: int,
)
    requires
        sorts_by_instant(deduped(entries_of(source_records(sources), zone, mode)), sorted),
        0 <= i < sorted.len(),
    ensures
        has_tokens(sorted[i].data.message.usage),
{
    let records = source_records(sources);
    let entries = entries_of(records, zone, mode);
    let kept = deduped(entries);
    law_all_records_have_tokens(sources);
    assert(sorted.contains(sorted[i]));
    law_sorting_keeps_the_entries(kept, sorted, sorted[i]);
    let j = choose|j: int| 0 <= j < kept.len() && kept[j] == sorted[i];
    law_kept_entries_are_first(entries, j);
    let k = choose|k: int| 0 <= k < entries.len() && entries[k] == kept[j];
    assert(has_tokens(records[k].usage));
}

proof fn lemma_bad_db_covers_nothing(
    before: Seq<DbContents>,
    bad: DbContents,
    after: Seq<DbContents>,
    path: Seq<PartView>,
)
    requires
        bad.tables is None,
    ensures
        rows_beside(before.push(bad) + after, path) == rows_beside(before + after, path),
        covered_by_catalogs(before.push(bad) + after, path) == covered_by_catalogs(
            before + after,
            path,
        ),
    decreases after.len(),
{
    if after.len() == 0 {
        let rows = rows_beside(before, path);
        let covered = covered_by_catalogs(before, path);
        assert(before.push(bad) + after =~= before.push(bad));
        assert(before + after =~= before);
        assert(before.push(bad).drop_last() =~= before);
        assert(rows + Seq::<JsonView>::empty() =~= rows);
        assert(covered.union(runs_of(catalog_events(bad))) =~= covered);
    } else {
        let rest = after.drop_last();
        lemma_bad_db_covers_nothing(before, bad, rest, path);
        assert((before.push(bad) + after).drop_last() =~= before.push(bad) + rest);
        assert((before + after).drop_last() =~= before + rest);
    }
}

proof fn lemma_bad_db_leaves_logs(
    before: Seq<DbContents>,
    bad: DbContents,
    after: Seq<DbContents>,
    files: Seq<NdjsonContents>,
    some: Seq<NdjsonContents>,
    path: Seq<PartView>,
)
    requires
        bad.tables is None,
    ensures
        covered_by_logs(before.push(bad) + after, files, some, path) == covered_by_logs(
            before + after,
            files,
            some,
            path,
        ),
    decreases some.len(),
{
    if some.len() > 0 {
        lemma_bad_db_leaves_logs(before, bad, after, files, some.drop_last(), path);
        lemma_bad_db_covers_nothing(before, bad, after, some.last().path@);
    }
}

proof fn lemma_bad_db_leaves_dbs(
    before: Seq<DbContents>,
    bad: DbContents,
    after: Seq<DbContents>,
    files: Seq<NdjsonContents>,
    some: Seq<DbContents>,
)
    requires
        bad.tables is None,
    ensures
        all_db_records(before.push(bad) + after, files, some) == all_db_records(
            before + after,
            files,
            some,
        ),
    decreases some.len(),
{
    if some.len() > 0 {
        lemma_bad_db_leaves_dbs(before, bad, after, files, some.drop_last());
        lemma_bad_db_leaves_logs(before, bad, after, files, files, some.last().path@);
    }
}

proof fn lemma_bad_db_adds_nothing(
    dbs: Seq<DbContents>,
    files: Seq<NdjsonContents>,
    before: Seq<DbContents>,
    bad: DbContents,
    after: Seq<DbContents>,
)
    requires
        bad.tables is None,
    ensures
        all_db_records(dbs, files, before.push(bad) + after) == all_db_records(
            dbs,
            files,
            before + after,
        ),
    decreases after.len(),
{
    if after.len() == 0 {
        let records = all_db_records(dbs, files, before);
        assert(before.push(bad) + after =~= before.push(bad));
        assert(before + after =~= before);
        assert(before.push(bad).drop_last() =~= before);
        assert(records + Seq::<RecordView>::empty() =~= records);
    } else {
        let rest = after.drop_last();
        lemma_bad_db_adds_nothing(dbs, files, before, bad, rest);
        assert((before.push(bad) + after).drop_last() =~= before.push(bad) + rest);
        assert((before + after).drop_last() =~= before + rest);
    }
}

proof fn lemma_bad_db_leaves_lines(
    before: Seq<DbContents>,
    bad: DbContents,
    after: Seq<DbContents>,
    files: Seq<NdjsonContents>,
    some: Seq<NdjsonContents>,
)
    requires
        bad.tables is None,
    ensures
        all_ndjson_records(before.push(bad) + after, files, some) == all_ndjson_records(
            before + after,
            files,
            some,
        ),
    decreases some.len(),
{
    if some.len() > 0 {
        let path = some.last().path@;
        lemma_bad_db_leaves_lines(before, bad, after, files, some.drop_last());
        lemma_bad_db_covers_nothing(before, bad, after, path);
        lemma_bad_db_leaves_logs(before, bad, after, files, files, path);
    }
}

/// A database that cannot be opened leaves the records of all other files as
/// they are.
pub proof fn law_unreadable_database_changes_nothing(
    sources: Sources,
    others: Sources,
    before: Seq<DbContents>,
    bad: DbContents,
    after: Seq<DbContents>,
)
    requires
        bad.tables is None,
        sources.dbs@ == before.push(bad) + after,
        others.dbs@ == before + after,
        others.ndjson@ == sources.ndjson@,
    ensures
        source_records(sources) == source_records(others),
{
    lemma_bad_db_leaves_dbs(before, bad, after, sources.ndjson@, sources.dbs@);
    lemma_bad_db_adds_nothing(others.dbs@, sources.ndjson@, before, bad, after);
    lemma_bad_db_leaves_lines(before, bad, after, sources.ndjson@, sources.ndjson@);
}

/// Where each run of a catalog names itself and its agent, and carries its
/// usage where a run does, the catalog gives the records of the index: those of
/// its usage events, then those of the runs that have none.
pub proof fn law_catalog_database_is_the_index(db: DbContents)
    requires
        is_catalog(db),
        forall|k: int|
            0 <= k < table_values(db.tables->0@, "runs"@).len() ==> {
                let run = #[trigger] table_values(db.tables->0@, "runs"@)[k];
                let (session, project) = path_identity(db.path@);
                &&& run_id(run) is Some
                &&& agent_id(run) is Some
                &&& sdk_run_record(run, session, project) is None ==> json_records(
                    run,
                    session,
                    project,
                ).len() == 0
            },
    ensures
        db_records(db) == index_records(
            table_values(db.tables->0@, "runs"@),
            table_values(db.tables->0@, "run_events"@),
            path_identity(db.path@).0,
            path_identity(db.path@).1,
        ),
{
    let (session, project) = path_identity(db.path@);
    law_catalog_is_the_index(
        table_values(db.tables->0@, "runs"@),
        table_values(db.tables->0@, "run_events"@),
        session,
        project,
    );
}

} // verus!
