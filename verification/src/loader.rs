//! From the contents of discovered files to the entries of a report.

use vstd::hash_set::StringHashSet;
use vstd::prelude::*;

use crate::codec::{json_text, parse_json};
use crate::discovery::{CursorDbKind, CursorNdjsonKind};
use crate::entry::{
    entries_of, entry_of, entry_views, record_to_loaded_entry, EntryView, LoadedEntry,
};
use crate::json::{json_views, Json, JsonView};
use crate::object::{lemma_object_view, member_views};
use crate::order::{is_stable_order, reordered, sort_by_keys};
use crate::parser::{
    json_records, record_views, records_from_json_value, CursorUsageRecord, RecordView,
};
use crate::paths::{identity_from_path, path_identity, CursorError};
use crate::pricing::CostMode;
use crate::sdk_index::{
    all_row_records, catalog_records, event_records, lemma_uncovered_rows_count, plain_records,
    records_from_run_events, records_from_sdk_catalog, records_from_uncovered_rows, runs_of,
    uncovered_row_records,
};
use crate::source_path::{same_folder, PartView, SourcePath};
use crate::table::{holds_text, is_wanted, row_members, row_object, wants_table, Row};
use crate::text::{opt_text, pieces, split_on, text_eq, texts, trim, trimmed};

verus! {

/// The rows of a table, as far as they could be read.
#[derive(Debug)]
pub struct Table {
    pub name: String,
    pub rows: Vec<Row>,
}

/// What a discovered database holds. There are no tables where it cannot be
/// opened.
#[derive(Debug)]
pub struct DbContents {
    pub path: SourcePath,
    pub kind: CursorDbKind,
    pub tables: Option<Vec<Table>>,
}

/// What a discovered file of JSON lines holds. There is no text where it
/// cannot be read.
#[derive(Debug)]
pub struct NdjsonContents {
    pub path: SourcePath,
    pub kind: CursorNdjsonKind,
    pub text: Option<String>,
}

/// What all discovered files hold.
#[derive(Debug)]
pub struct Sources {
    pub dbs: Vec<DbContents>,
    pub ndjson: Vec<NdjsonContents>,
}

/// The names of some tables.
pub open spec fn names_of(tables: Seq<Table>) -> Seq<Seq<char>> {
    Seq::new(tables.len(), |i: int| tables[i].name@)
}

/// The records of a row: those of the object that it makes.
pub open spec fn row_records(
    row: Row,
    session: Seq<char>,
    project: Seq<char>,
) -> Seq<RecordView> {
    if row_members(row@).len() == 0 {
        Seq::empty()
    } else {
        json_records(JsonView::Object(row_members(row@)), session, project)
    }
}

/// The records of some rows.
pub open spec fn table_records(
    rows: Seq<Row>,
    session: Seq<char>,
    project: Seq<char>,
) -> Seq<RecordView>
    decreases rows.len(),
{
    if rows.len() == 0 {
        Seq::empty()
    } else {
        table_records(rows.drop_last(), session, project) + row_records(
            rows.last(),
            session,
            project,
        )
    }
}

/// The records of those of the first `n` tables of a database that are read.
pub open spec fn tables_records(
    kind: CursorDbKind,
    tables: Seq<Table>,
    n: nat,
    session: Seq<char>,
    project: Seq<char>,
) -> Seq<RecordView>
    decreases n,
{
    if n == 0 || n > tables.len() {
        Seq::empty()
    } else {
        let table = tables[n - 1];
        let before = tables_records(kind, tables, (n - 1) as nat, session, project);
        if is_wanted(kind, names_of(tables), table.name@) {
            before + table_records(table.rows@, session, project)
        } else {
            before
        }
    }
}

/// The objects that some rows make.
pub open spec fn row_values(rows: Seq<Row>) -> Seq<JsonView> {
    Seq::new(rows.len(), |i: int| JsonView::Object(row_members(rows[i]@)))
}

/// The objects that the rows of the tables with that name make.
pub open spec fn table_values(tables: Seq<Table>, name: Seq<char>) -> Seq<JsonView>
    decreases tables.len(),
{
    if tables.len() == 0 {
        Seq::empty()
    } else {
        let before = table_values(tables.drop_last(), name);
        if tables.last().name@ == name {
            before + row_values(tables.last().rows@)
        } else {
            before
        }
    }
}

/// Whether a database is an SDK catalog: an `index.db` with a table `runs`.
pub open spec fn is_catalog(db: DbContents) -> bool {
    db.kind == CursorDbKind::Index && (db.tables matches Some(tables) && names_of(
        tables@,
    ).contains("runs"@))
}

/// The rows of the runs of an SDK catalog.
pub open spec fn catalog_runs(db: DbContents) -> Seq<JsonView> {
    match db.tables {
        Some(tables) => if is_catalog(db) {
            table_values(tables@, "runs"@)
        } else {
            Seq::empty()
        },
        None => Seq::empty(),
    }
}

/// The records of the usage events of an SDK catalog, each with its run.
pub open spec fn catalog_events(db: DbContents) -> Seq<(Seq<char>, RecordView)> {
    let (session, project) = path_identity(db.path@);
    match db.tables {
        Some(tables) => if is_catalog(db) {
            event_records(
                table_values(tables@, "runs"@),
                table_values(tables@, "run_events"@),
                session,
                project,
            )
        } else {
            Seq::empty()
        },
        None => Seq::empty(),
    }
}

/// The records of a database. An SDK catalog holds runs and events, and some of
/// its runs may have their usage events elsewhere; of any other database each
/// table that is read is read row by row.
pub open spec fn db_records_with(db: DbContents, elsewhere: Set<Seq<char>>) -> Seq<RecordView> {
    let (session, project) = path_identity(db.path@);
    match db.tables {
        Some(tables) => if is_catalog(db) {
            catalog_records(
                table_values(tables@, "runs"@),
                table_values(tables@, "run_events"@),
                elsewhere,
                session,
                project,
            )
        } else {
            tables_records(db.kind, tables@, tables@.len(), session, project)
        },
        None => Seq::empty(),
    }
}

/// The records of a database on its own.
pub open spec fn db_records(db: DbContents) -> Seq<RecordView> {
    db_records_with(db, Set::empty())
}

/// The JSON values of some lines: blank lines and lines that are not JSON have
/// none.
pub open spec fn line_values(lines: Seq<Seq<char>>) -> Seq<JsonView>
    decreases lines.len(),
{
    if lines.len() == 0 {
        Seq::empty()
    } else {
        let before = line_values(lines.drop_last());
        let line = trimmed(lines.last());
        match json_text(line) {
            Some(value) => if line.len() > 0 {
                before.push(value)
            } else {
                before
            },
            None => before,
        }
    }
}

/// The JSON values of the lines of a file.
pub open spec fn file_values(file: NdjsonContents) -> Seq<JsonView> {
    match file.text {
        Some(text) => line_values(pieces(text@, '\n')),
        None => Seq::empty(),
    }
}

/// The JSON values of the files of that kind in the folder of a path.
pub open spec fn values_beside(
    files: Seq<NdjsonContents>,
    path: Seq<PartView>,
    kind: CursorNdjsonKind,
) -> Seq<JsonView>
    decreases files.len(),
{
    if files.len() == 0 {
        Seq::empty()
    } else {
        let before = values_beside(files.drop_last(), path, kind);
        if files.last().kind == kind && same_folder(files.last().path@, path) {
            before + file_values(files.last())
        } else {
            before
        }
    }
}

/// The records of a file of JSON lines on its own: those of each of its lines,
/// or those of the usage events of a log.
pub open spec fn ndjson_records(file: NdjsonContents) -> Seq<RecordView> {
    let (session, project) = path_identity(file.path@);
    match file.kind {
        CursorNdjsonKind::Runs => all_row_records(file_values(file), session, project),
        CursorNdjsonKind::Events => plain_records(
            event_records(Seq::empty(), file_values(file), session, project),
        ),
    }
}

/// The rows of the runs of the SDK catalogs in the folder of a path.
pub open spec fn rows_beside(dbs: Seq<DbContents>, path: Seq<PartView>) -> Seq<JsonView>
    decreases dbs.len(),
{
    if dbs.len() == 0 {
        Seq::empty()
    } else {
        let before = rows_beside(dbs.drop_last(), path);
        if same_folder(dbs.last().path@, path) {
            before + catalog_runs(dbs.last())
        } else {
            before
        }
    }
}

/// The runs with usage events in an SDK catalog in the folder of a path.
pub open spec fn covered_by_catalogs(dbs: Seq<DbContents>, path: Seq<PartView>) -> Set<Seq<char>>
    decreases dbs.len(),
{
    if dbs.len() == 0 {
        Set::empty()
    } else {
        let before = covered_by_catalogs(dbs.drop_last(), path);
        if same_folder(dbs.last().path@, path) {
            before.union(runs_of(catalog_events(dbs.last())))
        } else {
            before
        }
    }
}

/// The records of the usage events of a log, each with its run. The runs are
/// those of the folder; of a run with both, the row of an SDK catalog tells more
/// than the line.
pub open spec fn log_events(
    dbs: Seq<DbContents>,
    files: Seq<NdjsonContents>,
    log: NdjsonContents,
) -> Seq<(Seq<char>, RecordView)> {
    let (session, project) = path_identity(log.path@);
    event_records(
        values_beside(files, log.path@, CursorNdjsonKind::Runs) + rows_beside(dbs, log.path@),
        file_values(log),
        session,
        project,
    )
}

/// The runs with usage events in one of some logs in the folder of a path.
pub open spec fn covered_by_logs(
    dbs: Seq<DbContents>,
    files: Seq<NdjsonContents>,
    some: Seq<NdjsonContents>,
    path: Seq<PartView>,
) -> Set<Seq<char>>
    decreases some.len(),
{
    if some.len() == 0 {
        Set::empty()
    } else {
        let file = some.last();
        let before = covered_by_logs(dbs, files, some.drop_last(), path);
        if file.kind == CursorNdjsonKind::Events && same_folder(file.path@, path) {
            before.union(runs_of(log_events(dbs, files, file)))
        } else {
            before
        }
    }
}

/// The records of a file of JSON lines among all files: those of the lines
/// whose run has no usage events in the folder, or those of the usage events of
/// a log.
pub open spec fn file_records(
    dbs: Seq<DbContents>,
    files: Seq<NdjsonContents>,
    file: NdjsonContents,
) -> Seq<RecordView> {
    let (session, project) = path_identity(file.path@);
    match file.kind {
        CursorNdjsonKind::Runs => uncovered_row_records(
            file_values(file),
            covered_by_catalogs(dbs, file.path@).union(
                covered_by_logs(dbs, files, files, file.path@),
            ),
            session,
            project,
        ),
        CursorNdjsonKind::Events => plain_records(log_events(dbs, files, file)),
    }
}

/// The records of some of the databases, each with its own rows: a run with
/// usage events in a log beside its catalog is left to the log.
pub open spec fn all_db_records(
    dbs: Seq<DbContents>,
    files: Seq<NdjsonContents>,
    some: Seq<DbContents>,
) -> Seq<RecordView>
    decreases some.len(),
{
    if some.len() == 0 {
        Seq::empty()
    } else {
        let db = some.last();
        all_db_records(dbs, files, some.drop_last()) + db_records_with(
            db,
            covered_by_logs(dbs, files, files, db.path@),
        )
    }
}

/// The records of some of the files of JSON lines.
pub open spec fn all_ndjson_records(
    dbs: Seq<DbContents>,
    files: Seq<NdjsonContents>,
    some: Seq<NdjsonContents>,
) -> Seq<RecordView>
    decreases some.len(),
{
    if some.len() == 0 {
        Seq::empty()
    } else {
        all_ndjson_records(dbs, files, some.drop_last()) + file_records(dbs, files, some.last())
    }
}

/// The records of the databases.
pub open spec fn records_of_dbs(sources: Sources) -> Seq<RecordView> {
    all_db_records(sources.dbs@, sources.ndjson@, sources.dbs@)
}

/// The records of the JSON lines.
pub open spec fn records_of_lines(sources: Sources) -> Seq<RecordView> {
    all_ndjson_records(sources.dbs@, sources.ndjson@, sources.ndjson@)
}

/// The records of all files, those of all databases before those of all JSON
/// lines.
pub open spec fn source_records(sources: Sources) -> Seq<RecordView> {
    records_of_dbs(sources) + records_of_lines(sources)
}

/// The entries of two lists of records are those of the one and then those of
/// the other.
pub proof fn lemma_entries_append(
    a: Seq<RecordView>,
    b: Seq<RecordView>,
    zone: jiff::tz::TimeZone,
    mode: CostMode,
)
    ensures
        entries_of(a + b, zone, mode) == entries_of(a, zone, mode) + entries_of(b, zone, mode),
{
    assert(entries_of(a + b, zone, mode) =~= entries_of(a, zone, mode) + entries_of(
        b,
        zone,
        mode,
    ));
}

/// Adds the entries of some records.
fn push_records(
    records: Vec<CursorUsageRecord>,
    zone: &jiff::tz::TimeZone,
    mode: CostMode,
    entries: &mut Vec<LoadedEntry>,
)
    ensures
        entry_views(final(entries)@) == entry_views(old(entries)@) + entries_of(
            record_views(records@),
            *zone,
            mode,
        ),
{
    let ghost before = entry_views(entries@);
    let ghost views = record_views(records@);
    let ghost list = records@;
    for record in it: records
        invariant
            it.seq() == list,
            views == record_views(list),
            entry_views(entries@) == before + entries_of(views.take(it.index()), *zone, mode),
    {
        let ghost i = it.index();
        let ghost so_far = entry_views(entries@);
        let entry = record_to_loaded_entry(record, zone, mode);
        let ghost view = entry@;
        entries.push(entry);
        proof {
            assert(view == entry_of(views[i], *zone, mode));
            assert(entry_views(entries@) =~= so_far.push(view));
            assert(entries_of(views.take(i + 1), *zone, mode) =~= entries_of(
                views.take(i),
                *zone,
                mode,
            ).push(view));
            assert(before + entries_of(views.take(i), *zone, mode).push(view) =~= (before
                + entries_of(views.take(i), *zone, mode)).push(view));
        }
    }
    proof {
        assert(views.take(views.len() as int) =~= views);
    }
}

/// Adds the entries of the records of a JSON tree.
fn push_records_from_value(
    value: &Json,
    session: &str,
    project: &str,
    zone: &jiff::tz::TimeZone,
    mode: CostMode,
    entries: &mut Vec<LoadedEntry>,
)
    ensures
        entry_views(final(entries)@) == entry_views(old(entries)@) + entries_of(
            json_records(value@, session@, project@),
            *zone,
            mode,
        ),
{
    let records = records_from_json_value(value, session, project);
    push_records(records, zone, mode, entries);
}

/// Adds the entries of the rows of a table.
pub fn load_table(
    rows: &Vec<Row>,
    session: &str,
    project: &str,
    zone: &jiff::tz::TimeZone,
    mode: CostMode,
    entries: &mut Vec<LoadedEntry>,
)
    ensures
        entry_views(final(entries)@) == entry_views(old(entries)@) + entries_of(
            table_records(rows@, session@, project@),
            *zone,
            mode,
        ),
{
    let ghost before = entry_views(entries@);
    let mut i: usize = 0;
    proof {
        assert(rows@.take(0) =~= Seq::empty());
        assert(before + entries_of(Seq::<RecordView>::empty(), *zone, mode) =~= before);
    }
    while i < rows.len()
        invariant
            i <= rows@.len(),
            entry_views(entries@) == before + entries_of(
                table_records(rows@.take(i as int), session@, project@),
                *zone,
                mode,
            ),
        decreases rows@.len() - i,
    {
        let ghost so_far = entry_views(entries@);
        let ghost earlier = table_records(rows@.take(i as int), session@, project@);
        let ghost added = row_records(rows@[i as int], session@, project@);
        proof {
            assert(rows@.take(i + 1).drop_last() =~= rows@.take(i as int));
            assert(rows@.take(i + 1).last() == rows@[i as int]);
            lemma_entries_append(earlier, added, *zone, mode);
        }
        let members = row_object(&rows[i]);
        if members.len() > 0 {
            proof {
                lemma_object_view(members);
            }
            push_records_from_value(&Json::Object(members), session, project, zone, mode, entries);
        } else {
            proof {
                assert(member_views(members@).len() == 0);
                assert(so_far =~= so_far + entries_of(added, *zone, mode));
            }
        }
        proof {
            assert(before + entries_of(earlier, *zone, mode) + entries_of(added, *zone, mode)
                =~= before + (entries_of(earlier, *zone, mode) + entries_of(added, *zone, mode)));
        }
        i += 1;
    }
    proof {
        assert(rows@.take(i as int) =~= rows@);
    }
}

/// The objects that the rows of the tables with that name make.
fn values_of_table(tables: &Vec<Table>, name: &str) -> (values: Vec<Json>)
    ensures
        json_views(values@) == table_values(tables@, name@),
{
    let mut values: Vec<Json> = Vec::new();
    let mut i: usize = 0;
    proof {
        assert(tables@.take(0) =~= Seq::empty());
        assert(json_views(values@) =~= Seq::<JsonView>::empty());
    }
    while i < tables.len()
        invariant
            i <= tables@.len(),
            json_views(values@) == table_values(tables@.take(i as int), name@),
        decreases tables@.len() - i,
    {
        let ghost before = json_views(values@);
        proof {
            assert(tables@.take(i + 1).drop_last() =~= tables@.take(i as int));
            assert(tables@.take(i + 1).last() == tables@[i as int]);
        }
        if text_eq(tables[i].name.as_str(), name) {
            let rows = &tables[i].rows;
            let ghost all = row_values(rows@);
            let mut k: usize = 0;
            proof {
                assert(before + all.take(0) =~= before);
            }
            while k < rows.len()
                invariant
                    k <= rows@.len(),
                    all == row_values(rows@),
                    json_views(values@) == before + all.take(k as int),
                decreases rows@.len() - k,
            {
                let ghost so_far = json_views(values@);
                let members = row_object(&rows[k]);
                proof {
                    lemma_object_view(members);
                }
                let value = Json::Object(members);
                let ghost view = value@;
                values.push(value);
                proof {
                    assert(json_views(values@) =~= so_far.push(view));
                    assert(all[k as int] == view);
                    assert(before + all.take(k + 1) =~= (before + all.take(k as int)).push(view));
                }
                k += 1;
            }
            proof {
                assert(all.take(k as int) =~= all);
            }
        }
        i += 1;
    }
    proof {
        assert(tables@.take(i as int) =~= tables@);
    }
    values
}

fn names_of_tables(tables: &Vec<Table>) -> (names: Vec<String>)
    ensures
        texts(names@) == names_of(tables@),
{
    let mut names: Vec<String> = Vec::new();
    let mut i: usize = 0;
    while i < tables.len()
        invariant
            i <= tables@.len(),
            names@.len() == i,
            forall|j: int| 0 <= j < i ==> (#[trigger] names@[j])@ == tables@[j].name@,
        decreases tables@.len() - i,
    {
        names.push(tables[i].name.clone());
        i += 1;
    }
    proof {
        assert(texts(names@) =~= names_of(tables@));
    }
    names
}

/// Whether a database is an SDK catalog.
fn holds_catalog(db: &DbContents) -> (yes: bool)
    ensures
        yes == is_catalog(*db),
{
    match &db.tables {
        Some(tables) => db.kind == CursorDbKind::Index && holds_text(
            &names_of_tables(tables),
            "runs",
        ),
        None => false,
    }
}

/// The entries of a database, without those of the rows of an SDK catalog whose
/// run has its usage events elsewhere.
fn load_database_with(
    db: &DbContents,
    elsewhere: StringHashSet,
    zone: &jiff::tz::TimeZone,
    mode: CostMode,
) -> (entries: Vec<LoadedEntry>)
    ensures
        entry_views(entries@) == entries_of(db_records_with(*db, elsewhere@), *zone, mode),
{
    let mut entries: Vec<LoadedEntry> = Vec::new();
    let (session, project) = identity_from_path(&db.path);
    proof {
        assert(entry_views(entries@) =~= Seq::<EntryView>::empty());
        assert(entries_of(Seq::<RecordView>::empty(), *zone, mode) =~= Seq::<EntryView>::empty());
    }
    match &db.tables {
        Some(tables) => {
            if holds_catalog(db) {
                let runs = values_of_table(tables, "runs");
                let events = values_of_table(tables, "run_events");
                let ghost all = db_records_with(*db, elsewhere@);
                let records = records_from_sdk_catalog(
                    runs.as_slice(),
                    events.as_slice(),
                    elsewhere,
                    session.as_str(),
                    project.as_str(),
                );
                push_records(records, zone, mode, &mut entries);
                proof {
                    assert(Seq::<EntryView>::empty() + entries_of(all, *zone, mode) =~= entries_of(
                        all,
                        *zone,
                        mode,
                    ));
                }
                return entries;
            }
            let names = names_of_tables(tables);
            let mut k: usize = 0;
            while k < tables.len()
                invariant
                    texts(names@) == names_of(tables@),
                    k <= tables@.len(),
                    entry_views(entries@) == entries_of(
                        tables_records(db.kind, tables@, k as nat, session@, project@),
                        *zone,
                        mode,
                    ),
                decreases tables@.len() - k,
            {
                proof {
                    lemma_entries_append(
                        tables_records(db.kind, tables@, k as nat, session@, project@),
                        table_records(tables@[k as int].rows@, session@, project@),
                        *zone,
                        mode,
                    );
                }
                if wants_table(db.kind, &names, tables[k].name.as_str()) {
                    load_table(
                        &tables[k].rows,
                        session.as_str(),
                        project.as_str(),
                        zone,
                        mode,
                        &mut entries,
                    );
                }
                k += 1;
            }
        },
        None => {},
    }
    entries
}

/// The entries of a database on its own: of its `run_events` and `runs` where
/// it is an SDK catalog, else of all its tables.
pub fn load_database(db: &DbContents, zone: &jiff::tz::TimeZone, mode: CostMode) -> (entries: Vec<
    LoadedEntry,
>)
    ensures
        entry_views(entries@) == entries_of(db_records(*db), *zone, mode),
{
    load_database_with(db, StringHashSet::new(), zone, mode)
}

/// The JSON values of the lines of a file. Blank lines and lines that are not
/// JSON are passed over.
fn values_of_file(file: &NdjsonContents) -> (values: Vec<Json>)
    ensures
        json_views(values@) == file_values(*file),
{
    let mut values: Vec<Json> = Vec::new();
    proof {
        assert(json_views(values@) =~= Seq::<JsonView>::empty());
    }
    match &file.text {
        Some(text) => {
            let lines = split_on(text.as_str(), '\n');
            let ghost all = texts(lines@);
            let mut i: usize = 0;
            proof {
                assert(all.take(0) =~= Seq::empty());
            }
            while i < lines.len()
                invariant
                    all == texts(lines@),
                    i <= lines@.len(),
                    json_views(values@) == line_values(all.take(i as int)),
                decreases lines@.len() - i,
            {
                let ghost before = json_views(values@);
                proof {
                    assert(all.take(i + 1).drop_last() =~= all.take(i as int));
                    assert(all.take(i + 1).last() == lines@[i as int]@);
                }
                let line = trim(lines[i].as_str());
                if line.unicode_len() > 0 {
                    match parse_json(line) {
                        Some(value) => {
                            let ghost view = value@;
                            values.push(value);
                            proof {
                                assert(json_views(values@) =~= before.push(view));
                            }
                        },
                        None => {},
                    }
                }
                i += 1;
            }
            proof {
                assert(all.take(i as int) =~= all);
            }
        },
        None => {},
    }
    values
}

/// The JSON values of the files of that kind in the folder of a path.
fn values_of_files_beside(
    files: &Vec<NdjsonContents>,
    path: &SourcePath,
    kind: CursorNdjsonKind,
) -> (values: Vec<Json>)
    ensures
        json_views(values@) == values_beside(files@, path@, kind),
{
    let mut values: Vec<Json> = Vec::new();
    let mut i: usize = 0;
    proof {
        assert(files@.take(0) =~= Seq::empty());
        assert(json_views(values@) =~= Seq::<JsonView>::empty());
    }
    while i < files.len()
        invariant
            i <= files@.len(),
            json_views(values@) == values_beside(files@.take(i as int), path@, kind),
        decreases files@.len() - i,
    {
        let ghost before = json_views(values@);
        proof {
            assert(files@.take(i + 1).drop_last() =~= files@.take(i as int));
            assert(files@.take(i + 1).last() == files@[i as int]);
        }
        if files[i].kind == kind && files[i].path.beside(path) {
            let mut more = values_of_file(&files[i]);
            let ghost added = json_views(more@);
            values.append(&mut more);
            proof {
                assert(json_views(values@) =~= before + added);
            }
        }
        i += 1;
    }
    proof {
        assert(files@.take(i as int) =~= files@);
    }
    values
}

/// The entries of some records.
fn entries_from_records(
    records: Vec<CursorUsageRecord>,
    zone: &jiff::tz::TimeZone,
    mode: CostMode,
) -> (entries: Vec<LoadedEntry>)
    ensures
        entry_views(entries@) == entries_of(record_views(records@), *zone, mode),
{
    let mut entries: Vec<LoadedEntry> = Vec::new();
    let ghost all = entries_of(record_views(records@), *zone, mode);
    push_records(records, zone, mode, &mut entries);
    proof {
        assert(entry_views(Seq::<LoadedEntry>::empty()) + all =~= all);
    }
    entries
}

/// The entries of a file of JSON lines on its own. Blank lines and lines that
/// are not JSON are passed over.
pub fn load_ndjson(file: &NdjsonContents, zone: &jiff::tz::TimeZone, mode: CostMode) -> (entries:
    Vec<LoadedEntry>)
    ensures
        entry_views(entries@) == entries_of(ndjson_records(*file), *zone, mode),
{
    let (session, project) = identity_from_path(&file.path);
    let values = values_of_file(file);
    let mut covered: StringHashSet = StringHashSet::new();
    let records = match file.kind {
        CursorNdjsonKind::Runs => {
            proof {
                lemma_uncovered_rows_count(json_views(values@), session@, project@);
            }
            records_from_uncovered_rows(
                values.as_slice(),
                &covered,
                session.as_str(),
                project.as_str(),
            )
        },
        CursorNdjsonKind::Events => {
            let runs: Vec<Json> = Vec::new();
            proof {
                assert(json_views(runs@) =~= Seq::<JsonView>::empty());
            }
            records_from_run_events(
                runs.as_slice(),
                values.as_slice(),
                session.as_str(),
                project.as_str(),
                &mut covered,
            )
        },
    };
    entries_from_records(records, zone, mode)
}

/// The rows of the runs of the SDK catalogs in the folder of a path.
fn rows_of_catalogs_beside(dbs: &Vec<DbContents>, path: &SourcePath) -> (rows: Vec<Json>)
    ensures
        json_views(rows@) == rows_beside(dbs@, path@),
{
    let mut rows: Vec<Json> = Vec::new();
    let mut i: usize = 0;
    proof {
        assert(dbs@.take(0) =~= Seq::empty());
        assert(json_views(rows@) =~= Seq::<JsonView>::empty());
    }
    while i < dbs.len()
        invariant
            i <= dbs@.len(),
            json_views(rows@) == rows_beside(dbs@.take(i as int), path@),
        decreases dbs@.len() - i,
    {
        let ghost before = json_views(rows@);
        let db = &dbs[i];
        proof {
            assert(dbs@.take(i + 1).drop_last() =~= dbs@.take(i as int));
            assert(dbs@.take(i + 1).last() == *db);
            assert(before + Seq::<JsonView>::empty() =~= before);
        }
        if db.path.beside(path) && holds_catalog(db) {
            match &db.tables {
                Some(tables) => {
                    let mut more = values_of_table(tables, "runs");
                    let ghost added = json_views(more@);
                    rows.append(&mut more);
                    proof {
                        assert(json_views(rows@) =~= before + added);
                    }
                },
                None => {},
            }
        }
        i += 1;
    }
    proof {
        assert(dbs@.take(i as int) =~= dbs@);
    }
    rows
}

/// Adds the runs with usage events in an SDK catalog in the folder of a path.
fn cover_by_catalogs(dbs: &Vec<DbContents>, path: &SourcePath, covered: &mut StringHashSet)
    ensures
        final(covered)@ == old(covered)@.union(covered_by_catalogs(dbs@, path@)),
{
    let ghost at_first = covered@;
    let mut i: usize = 0;
    proof {
        assert(dbs@.take(0) =~= Seq::empty());
        assert(at_first.union(Set::empty()) =~= at_first);
    }
    while i < dbs.len()
        invariant
            i <= dbs@.len(),
            covered@ == at_first.union(covered_by_catalogs(dbs@.take(i as int), path@)),
        decreases dbs@.len() - i,
    {
        let db = &dbs[i];
        let ghost before = covered_by_catalogs(dbs@.take(i as int), path@);
        let ghost here = runs_of(catalog_events(*db));
        proof {
            assert(dbs@.take(i + 1).drop_last() =~= dbs@.take(i as int));
            assert(dbs@.take(i + 1).last() == *db);
            assert(at_first.union(before).union(here) =~= at_first.union(before.union(here)));
        }
        if db.path.beside(path) {
            if holds_catalog(db) {
                match &db.tables {
                    Some(tables) => {
                        let (session, project) = identity_from_path(&db.path);
                        let runs = values_of_table(tables, "runs");
                        let events = values_of_table(tables, "run_events");
                        let _ = records_from_run_events(
                            runs.as_slice(),
                            events.as_slice(),
                            session.as_str(),
                            project.as_str(),
                            covered,
                        );
                    },
                    None => {},
                }
            } else {
                proof {
                    assert(before.union(here) =~= before);
                }
            }
        }
        i += 1;
    }
    proof {
        assert(dbs@.take(i as int) =~= dbs@);
    }
}

/// The records of the usage events of a log. Their runs are added to `covered`.
fn records_from_log(
    sources: &Sources,
    log: &NdjsonContents,
    covered: &mut StringHashSet,
) -> (records: Vec<CursorUsageRecord>)
    ensures
        record_views(records@) == plain_records(log_events(sources.dbs@, sources.ndjson@, *log)),
        final(covered)@ == old(covered)@.union(
            runs_of(log_events(sources.dbs@, sources.ndjson@, *log)),
        ),
{
    let (session, project) = identity_from_path(&log.path);
    let mut runs = values_of_files_beside(&sources.ndjson, &log.path, CursorNdjsonKind::Runs);
    let ghost lines = json_views(runs@);
    let mut rows = rows_of_catalogs_beside(&sources.dbs, &log.path);
    let ghost added = json_views(rows@);
    runs.append(&mut rows);
    proof {
        assert(json_views(runs@) =~= lines + added);
    }
    let events = values_of_file(log);
    records_from_run_events(
        runs.as_slice(),
        events.as_slice(),
        session.as_str(),
        project.as_str(),
        covered,
    )
}

/// Adds the runs with usage events in a log in the folder of a path.
fn cover_by_logs(sources: &Sources, path: &SourcePath, covered: &mut StringHashSet)
    ensures
        final(covered)@ == old(covered)@.union(
            covered_by_logs(sources.dbs@, sources.ndjson@, sources.ndjson@, path@),
        ),
{
    let ghost at_first = covered@;
    let ghost dbs = sources.dbs@;
    let ghost files = sources.ndjson@;
    let mut i: usize = 0;
    proof {
        assert(files.take(0) =~= Seq::empty());
        assert(at_first.union(Set::empty()) =~= at_first);
    }
    while i < sources.ndjson.len()
        invariant
            dbs == sources.dbs@,
            files == sources.ndjson@,
            i <= files.len(),
            covered@ == at_first.union(covered_by_logs(dbs, files, files.take(i as int), path@)),
        decreases files.len() - i,
    {
        let file = &sources.ndjson[i];
        let ghost before = covered_by_logs(dbs, files, files.take(i as int), path@);
        let ghost here = runs_of(log_events(dbs, files, *file));
        proof {
            assert(files.take(i + 1).drop_last() =~= files.take(i as int));
            assert(files.take(i + 1).last() == *file);
            assert(at_first.union(before).union(here) =~= at_first.union(before.union(here)));
        }
        if file.kind == CursorNdjsonKind::Events && file.path.beside(path) {
            let _ = records_from_log(sources, file, covered);
        }
        i += 1;
    }
    proof {
        assert(files.take(i as int) =~= files);
    }
}

/// The entries of a file of JSON lines among all files.
fn load_lines(
    sources: &Sources,
    file: &NdjsonContents,
    zone: &jiff::tz::TimeZone,
    mode: CostMode,
) -> (entries: Vec<LoadedEntry>)
    ensures
        entry_views(entries@) == entries_of(
            file_records(sources.dbs@, sources.ndjson@, *file),
            *zone,
            mode,
        ),
{
    let mut covered: StringHashSet = StringHashSet::new();
    let records = match file.kind {
        CursorNdjsonKind::Runs => {
            cover_by_catalogs(&sources.dbs, &file.path, &mut covered);
            proof {
                let by_catalogs = covered_by_catalogs(sources.dbs@, file.path@);
                assert(Set::<Seq<char>>::empty().union(by_catalogs) =~= by_catalogs);
            }
            cover_by_logs(sources, &file.path, &mut covered);
            let (session, project) = identity_from_path(&file.path);
            let values = values_of_file(file);
            records_from_uncovered_rows(
                values.as_slice(),
                &covered,
                session.as_str(),
                project.as_str(),
            )
        },
        CursorNdjsonKind::Events => records_from_log(sources, file, &mut covered),
    };
    entries_from_records(records, zone, mode)
}

/// What entries of one turn have in common: session, message and model. An
/// entry without a message id has nothing in common with another.
pub open spec fn entry_key(entry: EntryView) -> Option<Seq<char>> {
    match entry.data.message.id {
        Some(id) => Some(
            entry.session_id + "|"@ + id + "|"@ + match entry.model {
                Some(model) => model,
                None => Seq::empty(),
            },
        ),
        None => None,
    }
}

/// Whether one of the entries has the key.
pub open spec fn has_key(entries: Seq<EntryView>, key: Seq<char>) -> bool {
    exists|i: int| 0 <= i < entries.len() && entry_key(#[trigger] entries[i]) == Some(key)
}

/// Whether an entry is of a turn that none of the earlier entries is of.
pub open spec fn is_new(earlier: Seq<EntryView>, entry: EntryView) -> bool {
    match entry_key(entry) {
        Some(key) => !has_key(earlier, key),
        None => true,
    }
}

/// The entries without those of a turn that an earlier entry is of.
pub open spec fn deduped(entries: Seq<EntryView>) -> Seq<EntryView>
    decreases entries.len(),
{
    if entries.len() == 0 {
        Seq::empty()
    } else if is_new(entries.drop_last(), entries.last()) {
        deduped(entries.drop_last()).push(entries.last())
    } else {
        deduped(entries.drop_last())
    }
}

fn key_of(entry: &LoadedEntry) -> (key: Option<String>)
    ensures
        opt_text(key) == entry_key(entry@),
{
    match &entry.data.message.id {
        Some(id) => {
            let mut key = entry.session_id.clone();
            key.append("|");
            key.append(id.as_str());
            key.append("|");
            match &entry.model {
                Some(model) => {
                    key.append(model.as_str());
                },
                None => {
                    proof {
                        assert(key@ + Seq::<char>::empty() =~= key@);
                    }
                },
            }
            Some(key)
        },
        None => None,
    }
}

/// Drops the entries of a turn that an earlier entry is of.
pub fn dedupe_entries(entries: Vec<LoadedEntry>) -> (kept: Vec<LoadedEntry>)
    ensures
        entry_views(kept@) == deduped(entry_views(entries@)),
{
    let ghost list = entries@;
    let ghost all = entry_views(list);
    let mut seen: StringHashSet = StringHashSet::new();
    let mut kept: Vec<LoadedEntry> = Vec::new();
    proof {
        assert(all.take(0) =~= Seq::empty());
        assert(entry_views(kept@) =~= Seq::<EntryView>::empty());
    }
    for entry in it: entries
        invariant
            it.seq() == list,
            all == entry_views(list),
            entry_views(kept@) == deduped(all.take(it.index())),
            forall|key: Seq<char>|
                #[trigger] seen@.contains(key) <==> has_key(all.take(it.index()), key),
    {
        let ghost i = it.index();
        let ghost before = entry_views(kept@);
        let ghost seen_before = seen@;
        let ghost earlier = all.take(i);
        let ghost view = entry@;
        proof {
            assert(all.take(i + 1).drop_last() =~= earlier);
            assert(all.take(i + 1).last() == view);
        }
        let key = key_of(&entry);
        let fresh = match key {
            Some(text) => {
                let known = seen.contains(text.as_str());
                if !known {
                    seen.insert(text);
                }
                !known
            },
            None => true,
        };
        proof {
            assert(fresh == is_new(earlier, view));
            assert forall|k: Seq<char>|
                #[trigger] seen@.contains(k) <==> has_key(all.take(i + 1), k) by {
                let now = all.take(i + 1);
                assert(seen_before.contains(k) <==> has_key(earlier, k));
                if has_key(earlier, k) {
                    let j = choose|j: int|
                        0 <= j < earlier.len() && entry_key(#[trigger] earlier[j]) == Some(k);
                    assert(now[j] == earlier[j]);
                }
                if entry_key(view) == Some(k) {
                    assert(now[i] == view);
                }
                if has_key(now, k) {
                    let j = choose|j: int|
                        0 <= j < now.len() && entry_key(#[trigger] now[j]) == Some(k);
                    if j < i {
                        assert(earlier[j] == now[j]);
                    }
                }
            }
        }
        if fresh {
            kept.push(entry);
            proof {
                assert(entry_views(kept@) =~= before.push(view));
            }
        }
    }
    proof {
        assert(all.take(all.len() as int) =~= all);
    }
    kept
}

/// The instants of some entries.
pub open spec fn instants(entries: Seq<EntryView>) -> Seq<i64> {
    Seq::new(entries.len(), |i: int| entries[i].timestamp)
}

/// Whether `sorted` holds the entries in the order of their instants, those of
/// one instant in their own order.
pub open spec fn sorts_by_instant(entries: Seq<EntryView>, sorted: Seq<EntryView>) -> bool {
    exists|order: Seq<usize>| #[trigger]
        is_stable_order(instants(entries), false, order) && sorted == reordered(entries, order)
}

fn sort_entries(entries: Vec<LoadedEntry>) -> (sorted: Vec<LoadedEntry>)
    ensures
        sorts_by_instant(entry_views(entries@), entry_views(sorted@)),
{
    let mut keys: Vec<i64> = Vec::new();
    let mut i: usize = 0;
    while i < entries.len()
        invariant
            i <= entries@.len(),
            keys@.len() == i,
            forall|j: int| 0 <= j < i ==> keys@[j] == entries@[j].timestamp,
        decreases entries@.len() - i,
    {
        keys.push(entries[i].timestamp);
        i += 1;
    }
    let ghost list = entries@;
    let sorted = sort_by_keys(entries, &keys, false);
    proof {
        let order = choose|order: Seq<usize>|
            is_stable_order(keys@, false, order) && sorted@ == reordered(list, order);
        assert(keys@ =~= instants(entry_views(list)));
        assert forall|j: int| 0 <= j < order.len() implies order[j] < list.len() by {}
        assert(entry_views(sorted@) =~= reordered(entry_views(list), order));
        assert(is_stable_order(instants(entry_views(list)), false, order));
    }
    sorted
}

/// Loads the entries of all files: those of the databases and then those of
/// the JSON lines, each turn once, in the order of their instants. Where the
/// files could not be told there is that error.
pub fn load_entries(
    sources: Result<Sources, CursorError>,
    mode: CostMode,
    zone: &jiff::tz::TimeZone,
) -> (entries: Result<Vec<LoadedEntry>, CursorError>)
    ensures
        match sources {
            Ok(s) => entries matches Ok(list) && sorts_by_instant(
                deduped(entries_of(source_records(s), *zone, mode)),
                entry_views(list@),
            ),
            Err(e) => entries == Err::<Vec<LoadedEntry>, CursorError>(e),
        },
{
    let sources = match sources {
        Ok(s) => s,
        Err(e) => {
            return Err(e);
        },
    };
    let ghost dbs = sources.dbs@;
    let ghost files = sources.ndjson@;
    let mut entries: Vec<LoadedEntry> = Vec::new();
    let mut i: usize = 0;
    proof {
        assert(dbs.take(0) =~= Seq::empty());
        assert(entry_views(entries@) =~= entries_of(Seq::<RecordView>::empty(), *zone, mode));
    }
    while i < sources.dbs.len()
        invariant
            dbs == sources.dbs@,
            files == sources.ndjson@,
            i <= dbs.len(),
            entry_views(entries@) == entries_of(
                all_db_records(dbs, files, dbs.take(i as int)),
                *zone,
                mode,
            ),
        decreases dbs.len() - i,
    {
        let db = &sources.dbs[i];
        let ghost before = entry_views(entries@);
        let ghost elsewhere = covered_by_logs(dbs, files, files, db.path@);
        let mut covered: StringHashSet = StringHashSet::new();
        cover_by_logs(&sources, &db.path, &mut covered);
        proof {
            assert(Set::<Seq<char>>::empty().union(elsewhere) =~= elsewhere);
        }
        let mut loaded = load_database_with(db, covered, zone, mode);
        let ghost added = entry_views(loaded@);
        proof {
            assert(dbs.take(i + 1).drop_last() =~= dbs.take(i as int));
            assert(dbs.take(i + 1).last() == dbs[i as int]);
            lemma_entries_append(
                all_db_records(dbs, files, dbs.take(i as int)),
                db_records_with(*db, elsewhere),
                *zone,
                mode,
            );
        }
        entries.append(&mut loaded);
        proof {
            assert(entry_views(entries@) =~= before + added);
        }
        i += 1;
    }
    let ghost from_dbs = all_db_records(dbs, files, dbs);
    let mut k: usize = 0;
    proof {
        assert(dbs.take(i as int) =~= dbs);
        assert(files.take(0) =~= Seq::empty());
        assert(from_dbs + Seq::<RecordView>::empty() =~= from_dbs);
    }
    while k < sources.ndjson.len()
        invariant
            dbs == sources.dbs@,
            files == sources.ndjson@,
            k <= files.len(),
            entry_views(entries@) == entries_of(
                from_dbs + all_ndjson_records(dbs, files, files.take(k as int)),
                *zone,
                mode,
            ),
        decreases files.len() - k,
    {
        let file = &sources.ndjson[k];
        let ghost before = entry_views(entries@);
        let ghost earlier = all_ndjson_records(dbs, files, files.take(k as int));
        let ghost more = file_records(dbs, files, *file);
        let mut loaded = load_lines(&sources, file, zone, mode);
        let ghost added = entry_views(loaded@);
        proof {
            assert(files.take(k + 1).drop_last() =~= files.take(k as int));
            assert(files.take(k + 1).last() == files[k as int]);
            lemma_entries_append(from_dbs + earlier, more, *zone, mode);
            assert(from_dbs + earlier + more =~= from_dbs + (earlier + more));
        }
        entries.append(&mut loaded);
        proof {
            assert(entry_views(entries@) =~= before + added);
        }
        k += 1;
    }
    proof {
        assert(files.take(k as int) =~= files);
    }
    Ok(sort_entries(dedupe_entries(entries)))
}

} // verus!
