//! Laws of sources: which rows, lines and blobs are read, and which of them
//! usage events stand for.

use vstd::prelude::*;
use vstd::utf8::*;

use crate::codec::{
    coerced, hex_bytes, hex_digit, hex_pair, hex_pairs, json_or_hex, json_prefix, json_text,
    objects_in,
};
use crate::discovery::{CursorDbKind, CursorNdjsonKind};
use crate::json::JsonView;
use crate::load_laws::{law_databases_keep_their_order, law_line_files_keep_their_order};
use crate::loader::{
    all_db_records, all_ndjson_records, catalog_events, catalog_runs, covered_by_catalogs,
    covered_by_logs,
    db_records, db_records_with, file_records, file_values, is_catalog, line_values, log_events,
    names_of, ndjson_records, row_records, row_values, rows_beside, source_records, table_records,
    table_values, tables_records, values_beside, DbContents, NdjsonContents, Sources, Table,
};
use crate::number::{double_finite, Number};
use crate::parser::{json_records, RecordView};
use crate::paths::path_identity;
use crate::sdk_index::{
    catalog_records, covers, event_records, lemma_uncovered_rows_count, uncovered_row_records,
};
use crate::source_path::{same_folder, PartView};
use crate::table::{
    cell_value, is_ident_char, is_ident_start, is_wanted, row_members, safe_ident, wanted_tables,
    CellView, Row,
};
use crate::text::{pieces, trimmed};

verus! {

/// A cell with an integer stands for that integer, one with a finite float for
/// that float, and one with a text for the JSON that the text spells, else for
/// the text. A null cell stands for nothing.
pub proof fn law_cells_stand_for_what_they_hold(cell: CellView)
    ensures
        match cell {
            CellView::Null => cell_value(cell) is None,
            CellView::Integer(n) => cell_value(cell) == Some(
                JsonView::Number(
                    if n < 0 {
                        Number::NegInt(n)
                    } else {
                        Number::PosInt(n as u64)
                    },
                ),
            ),
            CellView::Float(bits) => if double_finite(bits) {
                cell_value(cell) == Some(JsonView::Number(Number::Float(bits)))
            } else {
                cell_value(cell) == Some(JsonView::Null)
            },
            CellView::Text(text) => if json_text(text) is Some {
                cell_value(cell) == json_text(text)
            } else {
                cell_value(cell) == Some(JsonView::Text(text))
            },
            CellView::Binary(bytes) => true,
        },
{
}

/// A blob that is JSON in UTF-8 stands for that JSON. Any other blob stands for
/// the object in it, for the array of the objects in it where there are
/// several, and for nothing where there is none.
pub proof fn law_blobs_stand_for_their_json(bytes: Seq<u8>)
    ensures
        ({
            let value = cell_value(CellView::Binary(bytes));
            let objects = objects_in(bytes);
            let whole = valid_utf8(bytes) && json_text(decode_utf8(bytes)) is Some;
            &&& whole ==> value == json_text(decode_utf8(bytes))
            &&& !whole && objects.len() == 0 ==> value is None
            &&& !whole && objects.len() == 1 ==> value == Some(objects[0])
            &&& !whole && objects.len() > 1 ==> value == Some(JsonView::Array(objects))
        }),
{
}

/// Bytes that hold no opening brace are passed over.
pub proof fn law_bytes_before_a_brace_are_passed_over(before: Seq<u8>, data: Seq<u8>)
    requires
        forall|i: int| 0 <= i < before.len() ==> #[trigger] before[i] != 0x7b,
    ensures
        objects_in(before + data) == objects_in(data),
    decreases before.len(),
{
    let all = before + data;
    if before.len() == 0 {
        assert(all =~= data);
    } else {
        let rest = before.skip(1);
        assert(all[0] == before[0]);
        assert(all.skip(1) =~= rest + data);
        assert forall|i: int| 0 <= i < rest.len() implies #[trigger] rest[i] != 0x7b by {
            assert(rest[i] == before[i + 1]);
        }
        law_bytes_before_a_brace_are_passed_over(rest, data);
    }
}

/// An object that is read at an opening brace is found, and the search goes on
/// behind it; where no object is read there, it goes on behind the brace.
pub proof fn law_objects_are_found_at_braces(data: Seq<u8>)
    requires
        data.len() > 0,
        data[0] == 0x7b,
    ensures
        match json_prefix(data) {
            Some((JsonView::Object(members), taken)) => 0 < taken <= data.len() ==> objects_in(data)
                == seq![JsonView::Object(members)] + objects_in(data.skip(taken as int)),
            _ => objects_in(data) == objects_in(data.skip(1)),
        },
{
}

/// Where there are no bytes there are no objects.
pub proof fn law_no_bytes_hold_no_objects()
    ensures
        objects_in(Seq::<u8>::empty()).len() == 0,
{
}

/// A text stands for the JSON that it spells without surrounding white space,
/// else for the JSON whose UTF-8 it spells in hexadecimal, else for itself. Any
/// other value stands for itself.
pub proof fn law_texts_stand_for_the_json_they_spell(v: JsonView)
    ensures
        !(v is Text) ==> coerced(v) == v,
        v matches JsonView::Text(text) ==> {
            let inner = trimmed(text);
            let bytes = hex_bytes(inner);
            let plain = json_text(inner);
            let hex = bytes is Some && valid_utf8(bytes->0) && json_text(
                decode_utf8(bytes->0),
            ) is Some;
            &&& plain is Some ==> json_or_hex(text) == plain && coerced(v) == plain->0
            &&& plain is None && hex ==> json_or_hex(text) == json_text(decode_utf8(bytes->0))
                && Some(coerced(v)) == json_or_hex(text)
            &&& plain is None && !hex ==> json_or_hex(text) is None && coerced(v) == v
        },
{
}

/// Whether a character is the hexadecimal digit for a number.
pub open spec fn is_hex_digit(c: char, n: int) -> bool {
    ||| '0' <= c <= '9' && c as int == 0x30 + n
    ||| 'a' <= c <= 'f' && c as int == 0x57 + n
    ||| 'A' <= c <= 'F' && c as int == 0x37 + n
}

/// Whether two characters spell a byte: two digits, or a plus sign and a digit.
pub open spec fn spells_byte(high: char, low: char, byte: u8) -> bool {
    ||| exists|h: int, l: int|
        #![trigger is_hex_digit(high, h), is_hex_digit(low, l)]
        is_hex_digit(high, h) && is_hex_digit(low, l) && byte == 16 * h + l
    ||| high == '+' && is_hex_digit(low, byte as int)
}

proof fn lemma_hex_pair(high: char, low: char)
    ensures
        hex_pair(high, low) matches Some(byte) ==> spells_byte(high, low, byte),
        hex_pair(high, low) is None ==> forall|byte: u8|
            !#[trigger] spells_byte(high, low, byte),
{
    match (hex_digit(high), hex_digit(low)) {
        (Some(h), Some(l)) => {
            assert(is_hex_digit(high, h as int));
            assert(is_hex_digit(low, l as int));
        },
        _ => {},
    }
    assert forall|byte: u8|
        hex_pair(high, low) is None implies !#[trigger] spells_byte(
        high,
        low,
        byte,
    ) by {
        if spells_byte(high, low, byte) {
            if exists|h: int, l: int|
                #![trigger is_hex_digit(high, h), is_hex_digit(low, l)]
                is_hex_digit(high, h) && is_hex_digit(low, l) && byte == 16 * h + l {
                let (h, l) = choose|h: int, l: int|
                    #![trigger is_hex_digit(high, h), is_hex_digit(low, l)]
                    is_hex_digit(high, h) && is_hex_digit(low, l) && byte == 16 * h + l;
                assert(hex_digit(high) is Some);
                assert(hex_digit(low) is Some);
            } else {
                assert(hex_digit(low) is Some);
            }
        }
    }
}

proof fn lemma_hex_pairs(s: Seq<char>)
    ensures
        match hex_pairs(s) {
            Some(bytes) => s.len() == 2 * bytes.len() && forall|i: int|
                0 <= i < bytes.len() ==> spells_byte(s[2 * i], s[2 * i + 1], #[trigger] bytes[i]),
            None => s.len() % 2 == 1 || exists|i: int|
                0 <= i && 2 * i + 1 < s.len() && #[trigger] is_no_pair(s, i),
        },
    decreases s.len(),
{
    if s.len() >= 2 {
        let head = s.take(s.len() - 2);
        let high = s[s.len() - 2];
        let low = s[s.len() - 1];
        lemma_hex_pairs(head);
        lemma_hex_pair(high, low);
        match hex_pairs(s) {
            Some(bytes) => {
                let before = hex_pairs(head)->0;
                assert forall|i: int| 0 <= i < bytes.len() implies spells_byte(
                    s[2 * i],
                    s[2 * i + 1],
                    #[trigger] bytes[i],
                ) by {
                    if i < before.len() {
                        assert(before[i] == bytes[i]);
                        assert(head[2 * i] == s[2 * i]);
                        assert(head[2 * i + 1] == s[2 * i + 1]);
                    }
                }
            },
            None => {
                if hex_pairs(head) is None {
                    if s.len() % 2 == 0 {
                        let i = choose|i: int|
                            0 <= i && 2 * i + 1 < head.len() && #[trigger] is_no_pair(head, i);
                        assert(head[2 * i] == s[2 * i]);
                        assert(head[2 * i + 1] == s[2 * i + 1]);
                        assert(is_no_pair(s, i));
                    }
                } else if s.len() % 2 == 0 {
                    let i = s.len() as int / 2 - 1;
                    assert(2 * i == s.len() - 2);
                    assert(is_no_pair(s, i));
                }
            },
        }
    }
}

/// Whether the pair of characters at an index spells no byte.
pub open spec fn is_no_pair(s: Seq<char>, i: int) -> bool {
    forall|byte: u8| !#[trigger] spells_byte(s[2 * i], s[2 * i + 1], byte)
}

/// A text spells bytes in hexadecimal where it is made of pairs of digits, each
/// of which spells one byte; the empty text spells none.
pub proof fn law_hexadecimal_is_made_of_pairs(s: Seq<char>)
    ensures
        match hex_bytes(s) {
            Some(bytes) => bytes.len() > 0 && s.len() == 2 * bytes.len() && forall|i: int|
                0 <= i < bytes.len() ==> spells_byte(s[2 * i], s[2 * i + 1], #[trigger] bytes[i]),
            None => s.len() == 0 || s.len() % 2 == 1 || exists|i: int|
                0 <= i && 2 * i + 1 < s.len() && #[trigger] is_no_pair(s, i),
        },
{
    lemma_hex_pairs(s);
}

/// The tables to read are those that are wanted, in their order: each stands
/// among the tables of the database behind those before it, and none is left
/// out.
pub proof fn law_wanted_tables_are_read_in_order(kind: CursorDbKind, names: Seq<Seq<char>>)
    ensures
        exists|places: Seq<int>| #[trigger]
            lists_wanted(
                kind,
                names,
                names.len() as int,
                wanted_tables(kind, names),
                places,
            ),
{
    let places = lemma_wanted(kind, names, names.len() as int);
    assert(names.take(names.len() as int) =~= names);
    assert(lists_wanted(kind, names, names.len() as int, wanted_tables(kind, names), places));
}

/// Whether `places` lists, in order, where the wanted ones of the first `n`
/// names stand, and `some` these names.
pub open spec fn lists_wanted(
    kind: CursorDbKind,
    names: Seq<Seq<char>>,
    n: int,
    some: Seq<Seq<char>>,
    places: Seq<int>,
) -> bool {
    &&& places.len() == some.len()
    &&& forall|i: int|
        0 <= i < places.len() ==> 0 <= #[trigger] places[i] < n && names[places[i]] == some[i]
            && is_wanted(kind, names, some[i])
    &&& forall|i: int, j: int|
        0 <= i < j < places.len() ==> #[trigger] places[i] < #[trigger] places[j]
    &&& forall|k: int|
        0 <= k < n && is_wanted(kind, names, #[trigger] names[k]) ==> places.contains(k)
}

proof fn lemma_wanted(kind: CursorDbKind, names: Seq<Seq<char>>, n: int) -> (places: Seq<int>)
    requires
        0 <= n <= names.len(),
    ensures
        lists_wanted(
            kind,
            names,
            n,
            names.take(n).filter(|name: Seq<char>| is_wanted(kind, names, name)),
            places,
        ),
    decreases n,
{
    let pred = |name: Seq<char>| is_wanted(kind, names, name);
    reveal(Seq::filter);
    if n == 0 {
        assert(names.take(0) =~= Seq::empty());
        Seq::empty()
    } else {
        let earlier = lemma_wanted(kind, names, n - 1);
        let before = names.take(n - 1).filter(pred);
        let all = names.take(n).filter(pred);
        assert(names.take(n).drop_last() =~= names.take(n - 1));
        assert(names.take(n).last() == names[n - 1]);
        if is_wanted(kind, names, names[n - 1]) {
            let places = earlier.push(n - 1);
            assert(all == before.push(names[n - 1]));
            assert forall|k: int|
                0 <= k < n && is_wanted(kind, names, #[trigger] names[k]) implies places.contains(
                k,
            ) by {
                if k < n - 1 {
                    assert(earlier.contains(k));
                    let q = choose|q: int| 0 <= q < earlier.len() && earlier[q] == k;
                    assert(places[q] == k);
                } else {
                    assert(places[earlier.len() as int] == k);
                }
            }
            places
        } else {
            assert(all == before);
            earlier
        }
    }
}

/// Which tables are read: those whose names are made of ASCII letters, digits
/// and underscores and do not start with a digit; and only `runs` and
/// `run_events` where the database is an index that has a table `runs`.
pub proof fn law_tables_are_chosen_by_name(
    kind: CursorDbKind,
    names: Seq<Seq<char>>,
    name: Seq<char>,
)
    ensures
        ({
            let safe = name.len() > 0 && !('0' <= name[0] <= '9') && forall|i: int|
                0 <= i < name.len() ==> ('a' <= #[trigger] name[i] <= 'z') || ('A' <= name[i]
                    <= 'Z') || ('0' <= name[i] <= '9') || name[i] == '_';
            let index = kind == CursorDbKind::Index && names.contains("runs"@);
            &&& safe_ident(name) <==> safe
            &&& !index ==> (is_wanted(kind, names, name) <==> safe)
            &&& index ==> (is_wanted(kind, names, name) <==> safe && (name == "runs"@ || name
                == "run_events"@))
        }),
{
    let safe = name.len() > 0 && !('0' <= name[0] <= '9') && forall|i: int|
        0 <= i < name.len() ==> ('a' <= #[trigger] name[i] <= 'z') || ('A' <= name[i] <= 'Z') || (
        '0' <= name[i] <= '9') || name[i] == '_';
    if safe {
        assert(is_ident_start(name[0]));
    }
    if safe_ident(name) {
        assert forall|i: int| 0 <= i < name.len() implies ('a' <= #[trigger] name[i] <= 'z') || (
        'A' <= name[i] <= 'Z') || ('0' <= name[i] <= '9') || name[i] == '_' by {
            assert(is_ident_char(name[i]));
        }
    }
}

/// The rows of a table are read one after the other, each as the object of its
/// cells; a row without a value gives nothing.
pub proof fn law_tables_are_read_row_by_row(
    a: Seq<Row>,
    b: Seq<Row>,
    session: Seq<char>,
    project: Seq<char>,
)
    ensures
        table_records(a + b, session, project) == table_records(a, session, project)
            + table_records(b, session, project),
        forall|row: Row| #[trigger]
            table_records(seq![row], session, project) == (if row_members(row@).len() > 0 {
                json_records(JsonView::Object(row_members(row@)), session, project)
            } else {
                Seq::empty()
            }),
    decreases b.len(),
{
    let first = table_records(a, session, project);
    if b.len() == 0 {
        assert(a + b =~= a);
        assert(first + Seq::<RecordView>::empty() =~= first);
    } else {
        let rest = b.drop_last();
        law_tables_are_read_row_by_row(a, rest, session, project);
        assert((a + b).drop_last() =~= a + rest);
        assert((a + b).last() == b.last());
        let before = table_records(rest, session, project);
        let last = row_records(b.last(), session, project);
        assert(first + before + last =~= first + (before + last));
    }
    assert forall|row: Row| #[trigger] table_records(seq![row], session, project) == (
    if row_members(row@).len() > 0 {
        json_records(JsonView::Object(row_members(row@)), session, project)
    } else {
        Seq::empty()
    }) by {
        let one = seq![row];
        assert(one.drop_last() =~= Seq::empty());
        assert(one.last() == row);
        assert(table_records(Seq::empty(), session, project) =~= Seq::empty());
        let records = row_records(row, session, project);
        assert(Seq::<RecordView>::empty() + records =~= records);
    }
}

proof fn lemma_store_tables(
    a: Seq<Table>,
    b: Seq<Table>,
    n: nat,
    session: Seq<char>,
    project: Seq<char>,
)
    requires
        n <= b.len(),
    ensures
        tables_records(CursorDbKind::Store, a + b, a.len() + n, session, project)
            == tables_records(CursorDbKind::Store, a, a.len(), session, project) + tables_records(
            CursorDbKind::Store,
            b,
            n,
            session,
            project,
        ),
    decreases n,
{
    let kind = CursorDbKind::Store;
    let first = tables_records(kind, a, a.len(), session, project);
    if n == 0 {
        lemma_store_prefix(a, b, a.len(), session, project);
        assert(first + Seq::<RecordView>::empty() =~= first);
    } else {
        lemma_store_tables(a, b, (n - 1) as nat, session, project);
        assert((a + b)[a.len() + n - 1] == b[n - 1]);
        let before = tables_records(kind, b, (n - 1) as nat, session, project);
        let last = table_records(b[n - 1].rows@, session, project);
        assert(first + before + last =~= first + (before + last));
    }
}

proof fn lemma_store_prefix(
    a: Seq<Table>,
    b: Seq<Table>,
    n: nat,
    session: Seq<char>,
    project: Seq<char>,
)
    requires
        n <= a.len(),
    ensures
        tables_records(CursorDbKind::Store, a + b, n, session, project) == tables_records(
            CursorDbKind::Store,
            a,
            n,
            session,
            project,
        ),
    decreases n,
{
    if n > 0 {
        lemma_store_prefix(a, b, (n - 1) as nat, session, project);
        assert((a + b)[n - 1] == a[n - 1]);
    }
}

/// The tables of a store are read one after the other.
pub proof fn law_stores_are_read_table_by_table(
    first: DbContents,
    second: DbContents,
    joined: DbContents,
)
    requires
        first.kind == CursorDbKind::Store,
        second.kind == CursorDbKind::Store,
        joined.kind == CursorDbKind::Store,
        first.path@ == joined.path@,
        second.path@ == joined.path@,
        first.tables is Some,
        second.tables is Some,
        joined.tables is Some,
        joined.tables->0@ == first.tables->0@ + second.tables->0@,
    ensures
        db_records(joined) == db_records(first) + db_records(second),
{
    let (session, project) = path_identity(joined.path@);
    lemma_store_tables(
        first.tables->0@,
        second.tables->0@,
        second.tables->0@.len(),
        session,
        project,
    );
}

/// A store with one table gives the records of its rows, with the session and
/// the project that the path tells, unless the name of the table is not safe.
pub proof fn law_store_of_one_table_gives_its_rows(db: DbContents, table: Table)
    requires
        db.kind == CursorDbKind::Store,
        db.tables is Some,
        db.tables->0@ == seq![table],
    ensures
        ({
            let (session, project) = path_identity(db.path@);
            &&& safe_ident(table.name@) ==> db_records(db) == table_records(
                table.rows@,
                session,
                project,
            )
            &&& !safe_ident(table.name@) ==> db_records(db).len() == 0
        }),
{
    let (session, project) = path_identity(db.path@);
    let tables = db.tables->0@;
    let records = table_records(table.rows@, session, project);
    assert(tables[0] == table);
    assert(tables_records(db.kind, tables, 0, session, project) =~= Seq::empty());
    assert(tables_records(db.kind, tables, 1, session, project) == (if is_wanted(
        db.kind,
        names_of(tables),
        table.name@,
    ) {
        tables_records(db.kind, tables, 0, session, project) + records
    } else {
        tables_records(db.kind, tables, 0, session, project)
    }));
    assert(Seq::<RecordView>::empty() + records =~= records);
}

/// A database that cannot be opened gives nothing.
pub proof fn law_unreadable_database_gives_nothing(db: DbContents, elsewhere: Set<Seq<char>>)
    requires
        db.tables is None,
    ensures
        db_records_with(db, elsewhere).len() == 0,
{
}

/// An index without a table `runs` gives the records of the rows of all tables
/// with safe names.
pub proof fn law_index_without_runs_gives_all_rows(db: DbContents, k: int, i: int)
    requires
        db.kind == CursorDbKind::Index,
        db.tables is Some,
        forall|j: int|
            0 <= j < db.tables->0@.len() ==> (#[trigger] db.tables->0@[j]).name@ != "runs"@,
        0 <= k < db.tables->0@.len(),
        safe_ident(db.tables->0@[k].name@),
        0 <= i < table_records(
            db.tables->0@[k].rows@,
            path_identity(db.path@).0,
            path_identity(db.path@).1,
        ).len(),
    ensures
        db_records(db).contains(
            table_records(
                db.tables->0@[k].rows@,
                path_identity(db.path@).0,
                path_identity(db.path@).1,
            )[i],
        ),
{
    let (session, project) = path_identity(db.path@);
    let tables = db.tables->0@;
    let names = names_of(tables);
    assert(!names.contains("runs"@)) by {
        if names.contains("runs"@) {
            let j = choose|j: int| 0 <= j < names.len() && names[j] == "runs"@;
            assert(tables[j].name@ == "runs"@);
        }
    }
    lemma_table_is_read(db.kind, tables, k, tables.len(), session, project, i);
}

proof fn lemma_table_is_read(
    kind: CursorDbKind,
    tables: Seq<Table>,
    k: int,
    n: nat,
    session: Seq<char>,
    project: Seq<char>,
    i: int,
)
    requires
        0 <= k < n <= tables.len(),
        is_wanted(kind, names_of(tables), tables[k].name@),
        0 <= i < table_records(tables[k].rows@, session, project).len(),
    ensures
        tables_records(kind, tables, n, session, project).contains(
            table_records(tables[k].rows@, session, project)[i],
        ),
    decreases n,
{
    let before = tables_records(kind, tables, (n - 1) as nat, session, project);
    let all = tables_records(kind, tables, n, session, project);
    let record = table_records(tables[k].rows@, session, project)[i];
    if k < n - 1 {
        lemma_table_is_read(kind, tables, k, (n - 1) as nat, session, project, i);
        let q = choose|q: int| 0 <= q < before.len() && before[q] == record;
        assert(all[q] == record);
    } else {
        assert(all[before.len() + i] == record);
    }
}

/// An index without a table `runs` is read as a store with its tables is.
pub proof fn law_index_without_runs_is_read_as_a_store(db: DbContents, store: DbContents)
    requires
        db.kind == CursorDbKind::Index,
        store.kind == CursorDbKind::Store,
        db.path@ == store.path@,
        db.tables is Some,
        db.tables == store.tables,
        forall|j: int|
            0 <= j < db.tables->0@.len() ==> (#[trigger] db.tables->0@[j]).name@ != "runs"@,
    ensures
        db_records(db) == db_records(store),
{
    let (session, project) = path_identity(db.path@);
    let tables = db.tables->0@;
    let names = names_of(tables);
    assert(!names.contains("runs"@)) by {
        if names.contains("runs"@) {
            let j = choose|j: int| 0 <= j < names.len() && names[j] == "runs"@;
            assert(tables[j].name@ == "runs"@);
        }
    }
    lemma_index_as_store(tables, tables.len(), session, project);
}

proof fn lemma_index_as_store(
    tables: Seq<Table>,
    n: nat,
    session: Seq<char>,
    project: Seq<char>,
)
    requires
        !names_of(tables).contains("runs"@),
    ensures
        tables_records(CursorDbKind::Index, tables, n, session, project) == tables_records(
            CursorDbKind::Store,
            tables,
            n,
            session,
            project,
        ),
    decreases n,
{
    if n > 0 && n <= tables.len() {
        lemma_index_as_store(tables, (n - 1) as nat, session, project);
    }
}

/// An index with a table `runs` is a catalog: it gives the records of its
/// `run_events` and of the rows of its `runs`, with the session and the project
/// that the path tells. Nothing else is a catalog.
pub proof fn law_catalog_has_runs_and_events(db: DbContents, elsewhere: Set<Seq<char>>, k: int)
    requires
        db.kind == CursorDbKind::Index,
        db.tables is Some,
        0 <= k < db.tables->0@.len(),
        db.tables->0@[k].name@ == "runs"@,
    ensures
        is_catalog(db),
        db_records_with(db, elsewhere) == catalog_records(
            table_values(db.tables->0@, "runs"@),
            table_values(db.tables->0@, "run_events"@),
            elsewhere,
            path_identity(db.path@).0,
            path_identity(db.path@).1,
        ),
        catalog_events(db) == event_records(
            table_values(db.tables->0@, "runs"@),
            table_values(db.tables->0@, "run_events"@),
            path_identity(db.path@).0,
            path_identity(db.path@).1,
        ),
{
    assert(names_of(db.tables->0@)[k] == "runs"@);
}

/// Only an index with a table `runs` has usage events of its own.
pub proof fn law_only_catalogs_have_events(db: DbContents)
    requires
        db.kind == CursorDbKind::Store || db.tables is None || forall|j: int|
            0 <= j < db.tables->0@.len() ==> (#[trigger] db.tables->0@[j]).name@ != "runs"@,
    ensures
        !is_catalog(db),
        catalog_events(db).len() == 0,
{
    if is_catalog(db) {
        let names = names_of(db.tables->0@);
        let j = choose|j: int| 0 <= j < names.len() && names[j] == "runs"@;
        assert(db.tables->0@[j].name@ == "runs"@);
    }
}

/// The rows of a table of that name are taken as the objects of their cells, in
/// order; tables of other names are left out.
pub proof fn law_rows_of_a_table_are_its_objects(a: Seq<Table>, b: Seq<Table>, name: Seq<char>)
    ensures
        table_values(a + b, name) == table_values(a, name) + table_values(b, name),
        forall|table: Table|
            (#[trigger] table_values(seq![table], name)).len() == (if table.name@ == name {
                table.rows@.len()
            } else {
                0
            }) && (table.name@ == name ==> forall|i: int|
                0 <= i < table.rows@.len() ==> #[trigger] table_values(seq![table], name)[i]
                    == JsonView::Object(row_members(table.rows@[i]@))),
    decreases b.len(),
{
    let first = table_values(a, name);
    if b.len() == 0 {
        assert(a + b =~= a);
        assert(first + Seq::<JsonView>::empty() =~= first);
    } else {
        let rest = b.drop_last();
        law_rows_of_a_table_are_its_objects(a, rest, name);
        assert((a + b).drop_last() =~= a + rest);
        assert((a + b).last() == b.last());
        let before = table_values(rest, name);
        let last = row_values(b.last().rows@);
        assert(first + before + last =~= first + (before + last));
    }
    assert forall|table: Table|
        (#[trigger] table_values(seq![table], name)).len() == (if table.name@ == name {
            table.rows@.len()
        } else {
            0
        }) && (table.name@ == name ==> forall|i: int|
            0 <= i < table.rows@.len() ==> #[trigger] table_values(seq![table], name)[i]
                == JsonView::Object(row_members(table.rows@[i]@))) by {
        let one = seq![table];
        assert(one.drop_last() =~= Seq::empty());
        assert(one.last() == table);
        assert(table_values(Seq::empty(), name) =~= Seq::empty());
        let rows = row_values(table.rows@);
        assert(Seq::<JsonView>::empty() + rows =~= rows);
    }
}

/// A line that is not blank and spells JSON gives that value; any other line
/// gives nothing.
pub proof fn law_a_line_gives_its_json(line: Seq<char>)
    ensures
        ({
            let inner = trimmed(line);
            let values = line_values(seq![line]);
            &&& inner.len() > 0 && json_text(inner) is Some ==> values == seq![json_text(inner)->0]
            &&& inner.len() == 0 || json_text(inner) is None ==> values.len() == 0
        }),
{
    let one = seq![line];
    assert(one.drop_last() =~= Seq::empty());
    assert(one.last() == line);
    assert(line_values(Seq::empty()) =~= Seq::empty());
    if trimmed(line).len() > 0 && json_text(trimmed(line)) is Some {
        assert(line_values(one) =~= seq![json_text(trimmed(line))->0]);
    }
}

/// Lines are read one after the other.
pub proof fn law_lines_are_read_in_order(a: Seq<Seq<char>>, b: Seq<Seq<char>>)
    ensures
        line_values(a + b) == line_values(a) + line_values(b),
    decreases b.len(),
{
    if b.len() == 0 {
        assert(a + b =~= a);
        assert(line_values(a) + Seq::<JsonView>::empty() =~= line_values(a));
    } else {
        law_lines_are_read_in_order(a, b.drop_last());
        assert((a + b).drop_last() =~= a + b.drop_last());
        assert((a + b).last() == b.last());
        assert(line_values(a + b) =~= line_values(a) + line_values(b));
    }
}

/// The values of a file are those of its lines, which end at each line feed. A
/// file that cannot be read has none.
pub proof fn law_files_hold_the_values_of_their_lines(file: NdjsonContents)
    ensures
        file.text matches Some(text) ==> file_values(file) == line_values(pieces(text@, '\n')),
        file.text is None ==> file_values(file).len() == 0,
{
}

/// Two paths lie in one folder where they differ at most in their last
/// component.
pub proof fn law_one_folder_is_all_but_the_last_component(a: Seq<PartView>, b: Seq<PartView>)
    ensures
        same_folder(a, b) <==> a.len() == b.len() && a.len() > 0 && forall|i: int|
            0 <= i < a.len() - 1 ==> #[trigger] a[i] == b[i],
{
    if same_folder(a, b) {
        assert(a.drop_last().len() == b.drop_last().len());
        assert forall|i: int| 0 <= i < a.len() - 1 implies #[trigger] a[i] == b[i] by {
            assert(a.drop_last()[i] == b.drop_last()[i]);
        }
    }
    if a.len() == b.len() && a.len() > 0 && forall|i: int|
        0 <= i < a.len() - 1 ==> #[trigger] a[i] == b[i] {
        assert(a.drop_last() =~= b.drop_last());
    }
}

/// A run has usage events in a log beside a path exactly where there is a log
/// in the folder of the path with a usage event that has a record for the run.
pub proof fn law_logs_cover_the_runs_of_their_events(
    dbs: Seq<DbContents>,
    files: Seq<NdjsonContents>,
    some: Seq<NdjsonContents>,
    path: Seq<PartView>,
    id: Seq<char>,
)
    ensures
        covered_by_logs(dbs, files, some, path).contains(id) <==> exists|i: int|
            0 <= i < some.len() && (#[trigger] some[i]).kind == CursorNdjsonKind::Events
                && same_folder(some[i].path@, path) && covers(log_events(dbs, files, some[i]), id),
    decreases some.len(),
{
    if some.len() > 0 {
        let rest = some.drop_last();
        let last = some.len() - 1;
        law_logs_cover_the_runs_of_their_events(dbs, files, rest, path, id);
        if exists|i: int|
            0 <= i < some.len() && (#[trigger] some[i]).kind == CursorNdjsonKind::Events
                && same_folder(some[i].path@, path) && covers(log_events(dbs, files, some[i]), id) {
            let i = choose|i: int|
                0 <= i < some.len() && (#[trigger] some[i]).kind == CursorNdjsonKind::Events
                    && same_folder(some[i].path@, path) && covers(
                    log_events(dbs, files, some[i]),
                    id,
                );
            if i < last {
                assert(rest[i] == some[i]);
            }
        }
        if covered_by_logs(dbs, files, some, path).contains(id) {
            if covered_by_logs(dbs, files, rest, path).contains(id) {
                let i = choose|i: int|
                    0 <= i < rest.len() && (#[trigger] rest[i]).kind == CursorNdjsonKind::Events
                        && same_folder(rest[i].path@, path) && covers(
                        log_events(dbs, files, rest[i]),
                        id,
                    );
                assert(some[i] == rest[i]);
            } else {
                assert(some[last].kind == CursorNdjsonKind::Events);
            }
        }
    }
}

/// A run has usage events in a catalog beside a path exactly where there is a
/// catalog in the folder of the path with a usage event that has a record for
/// the run.
pub proof fn law_catalogs_cover_the_runs_of_their_events(
    dbs: Seq<DbContents>,
    path: Seq<PartView>,
    id: Seq<char>,
)
    ensures
        covered_by_catalogs(dbs, path).contains(id) <==> exists|i: int|
            0 <= i < dbs.len() && same_folder((#[trigger] dbs[i]).path@, path) && covers(
                catalog_events(dbs[i]),
                id,
            ),
    decreases dbs.len(),
{
    if dbs.len() > 0 {
        let rest = dbs.drop_last();
        let last = dbs.len() - 1;
        law_catalogs_cover_the_runs_of_their_events(rest, path, id);
        if exists|i: int|
            0 <= i < dbs.len() && same_folder((#[trigger] dbs[i]).path@, path) && covers(
                catalog_events(dbs[i]),
                id,
            ) {
            let i = choose|i: int|
                0 <= i < dbs.len() && same_folder((#[trigger] dbs[i]).path@, path) && covers(
                    catalog_events(dbs[i]),
                    id,
                );
            if i < last {
                assert(rest[i] == dbs[i]);
            }
        }
        if covered_by_catalogs(dbs, path).contains(id) {
            if covered_by_catalogs(rest, path).contains(id) {
                let i = choose|i: int|
                    0 <= i < rest.len() && same_folder((#[trigger] rest[i]).path@, path) && covers(
                        catalog_events(rest[i]),
                        id,
                    );
                assert(dbs[i] == rest[i]);
            } else {
                assert(same_folder(dbs[last].path@, path));
            }
        }
    }
}

/// The runs beside a path are the rows and lines of its folder alone, in order:
/// those of the files of that kind, and those of the catalogs.
pub proof fn law_runs_beside_a_path_lie_in_its_folder(
    files: Seq<NdjsonContents>,
    more: Seq<NdjsonContents>,
    dbs: Seq<DbContents>,
    others: Seq<DbContents>,
    path: Seq<PartView>,
    kind: CursorNdjsonKind,
)
    ensures
        values_beside(files + more, path, kind) == values_beside(files, path, kind)
            + values_beside(more, path, kind),
        forall|file: NdjsonContents| #[trigger]
            values_beside(seq![file], path, kind) == (if file.kind == kind && same_folder(
                file.path@,
                path,
            ) {
                file_values(file)
            } else {
                Seq::empty()
            }),
        rows_beside(dbs + others, path) == rows_beside(dbs, path) + rows_beside(others, path),
        forall|db: DbContents| #[trigger]
            rows_beside(seq![db], path) == (if is_catalog(db) && same_folder(db.path@, path) {
                table_values(db.tables->0@, "runs"@)
            } else {
                Seq::empty()
            }),
{
    lemma_values_append(files, more, path, kind);
    lemma_rows_append(dbs, others, path);
    assert forall|file: NdjsonContents| #[trigger] values_beside(seq![file], path, kind) == (
    if file.kind == kind && same_folder(file.path@, path) {
        file_values(file)
    } else {
        Seq::empty()
    }) by {
        let one = seq![file];
        assert(one.drop_last() =~= Seq::empty());
        assert(one.last() == file);
        assert(values_beside(Seq::empty(), path, kind) =~= Seq::empty());
        assert(Seq::<JsonView>::empty() + file_values(file) =~= file_values(file));
    }
    assert forall|db: DbContents| #[trigger] rows_beside(seq![db], path) == (if is_catalog(db)
        && same_folder(db.path@, path) {
        table_values(db.tables->0@, "runs"@)
    } else {
        Seq::empty()
    }) by {
        let one = seq![db];
        assert(one.drop_last() =~= Seq::empty());
        assert(one.last() == db);
        assert(rows_beside(Seq::empty(), path) =~= Seq::empty());
        let rows = catalog_runs(db);
        assert(Seq::<JsonView>::empty() + rows =~= rows);
    }
}

proof fn lemma_values_append(
    files: Seq<NdjsonContents>,
    more: Seq<NdjsonContents>,
    path: Seq<PartView>,
    kind: CursorNdjsonKind,
)
    ensures
        values_beside(files + more, path, kind) == values_beside(files, path, kind)
            + values_beside(more, path, kind),
    decreases more.len(),
{
    let first = values_beside(files, path, kind);
    if more.len() == 0 {
        assert(files + more =~= files);
        assert(first + Seq::<JsonView>::empty() =~= first);
    } else {
        let rest = more.drop_last();
        lemma_values_append(files, rest, path, kind);
        assert((files + more).drop_last() =~= files + rest);
        assert((files + more).last() == more.last());
        let before = values_beside(rest, path, kind);
        let last = file_values(more.last());
        assert(first + before + last =~= first + (before + last));
    }
}

proof fn lemma_rows_append(dbs: Seq<DbContents>, others: Seq<DbContents>, path: Seq<PartView>)
    ensures
        rows_beside(dbs + others, path) == rows_beside(dbs, path) + rows_beside(others, path),
    decreases others.len(),
{
    let first = rows_beside(dbs, path);
    if others.len() == 0 {
        assert(dbs + others =~= dbs);
        assert(first + Seq::<JsonView>::empty() =~= first);
    } else {
        let rest = others.drop_last();
        lemma_rows_append(dbs, rest, path);
        assert((dbs + others).drop_last() =~= dbs + rest);
        assert((dbs + others).last() == others.last());
        let before = rows_beside(rest, path);
        let last = catalog_runs(others.last());
        assert(first + before + last =~= first + (before + last));
    }
}

/// The usage events of a log take what they lack from the runs of their folder,
/// lines before rows, so that a row is the last of its run; the path of the log
/// tells session and project.
pub proof fn law_log_events_take_from_the_runs_of_their_folder(
    dbs: Seq<DbContents>,
    files: Seq<NdjsonContents>,
    log: NdjsonContents,
)
    ensures
        log_events(dbs, files, log) == event_records(
            values_beside(files, log.path@, CursorNdjsonKind::Runs) + rows_beside(dbs, log.path@),
            file_values(log),
            path_identity(log.path@).0,
            path_identity(log.path@).1,
        ),
{
}

/// A file of runs among others gives the records of its lines, but for those of
/// runs with usage events in a catalog or a log of its folder; a log gives the
/// records of its usage events.
pub proof fn law_lines_count_unless_their_run_has_events(
    dbs: Seq<DbContents>,
    files: Seq<NdjsonContents>,
    file: NdjsonContents,
    covered: Set<Seq<char>>,
)
    requires
        forall|id: Seq<char>| #[trigger]
            covered.contains(id) <==> (exists|i: int|
                0 <= i < dbs.len() && same_folder((#[trigger] dbs[i]).path@, file.path@) && covers(
                    catalog_events(dbs[i]),
                    id,
                )) || (exists|i: int|
                0 <= i < files.len() && (#[trigger] files[i]).kind == CursorNdjsonKind::Events
                    && same_folder(files[i].path@, file.path@) && covers(
                    log_events(dbs, files, files[i]),
                    id,
                )),
    ensures
        file.kind == CursorNdjsonKind::Runs ==> file_records(dbs, files, file)
            == uncovered_row_records(
            file_values(file),
            covered,
            path_identity(file.path@).0,
            path_identity(file.path@).1,
        ),
        file.kind == CursorNdjsonKind::Events ==> file_records(dbs, files, file).len()
            == log_events(dbs, files, file).len() && forall|i: int|
            0 <= i < log_events(dbs, files, file).len() ==> #[trigger] file_records(
                dbs,
                files,
                file,
            )[i] == log_events(dbs, files, file)[i].1,
{
    let both = covered_by_catalogs(dbs, file.path@).union(
        covered_by_logs(dbs, files, files, file.path@),
    );
    assert forall|id: Seq<char>| #[trigger] both.contains(id) <==> covered.contains(id) by {
        law_catalogs_cover_the_runs_of_their_events(dbs, file.path@, id);
        law_logs_cover_the_runs_of_their_events(dbs, files, files, file.path@, id);
    }
    assert(both =~= covered);
}

/// A file of runs on its own gives the records of each of its lines, one after
/// the other, with the session and the project that its path tells.
pub proof fn law_file_of_runs_gives_each_line(file: NdjsonContents)
    requires
        file.kind == CursorNdjsonKind::Runs,
    ensures
        ndjson_records(file) == uncovered_row_records(
            file_values(file),
            Set::empty(),
            path_identity(file.path@).0,
            path_identity(file.path@).1,
        ),
{
    lemma_uncovered_rows_count(
        file_values(file),
        path_identity(file.path@).0,
        path_identity(file.path@).1,
    );
}

/// An event log on its own gives the records of its usage events, which then
/// have no runs to take from.
pub proof fn law_log_on_its_own_gives_its_events(file: NdjsonContents)
    requires
        file.kind == CursorNdjsonKind::Events,
    ensures
        ({
            let found = event_records(
                Seq::empty(),
                file_values(file),
                path_identity(file.path@).0,
                path_identity(file.path@).1,
            );
            &&& ndjson_records(file).len() == found.len()
            &&& forall|i: int|
                0 <= i < found.len() ==> #[trigger] ndjson_records(file)[i] == found[i].1
        }),
{
}

/// One database among the sources gives its records, but for the rows of runs
/// with usage events in a log of its folder; one file gives those of that file.
pub proof fn law_single_sources_give_their_records(
    dbs: Seq<DbContents>,
    files: Seq<NdjsonContents>,
    db: DbContents,
    file: NdjsonContents,
    covered: Set<Seq<char>>,
)
    requires
        forall|id: Seq<char>| #[trigger]
            covered.contains(id) <==> exists|i: int|
                0 <= i < files.len() && (#[trigger] files[i]).kind == CursorNdjsonKind::Events
                    && same_folder(files[i].path@, db.path@) && covers(
                    log_events(dbs, files, files[i]),
                    id,
                ),
    ensures
        all_db_records(dbs, files, seq![db]) == db_records_with(db, covered),
        all_ndjson_records(dbs, files, seq![file]) == file_records(dbs, files, file),
{
    let logs = covered_by_logs(dbs, files, files, db.path@);
    assert forall|id: Seq<char>| #[trigger] logs.contains(id) <==> covered.contains(id) by {
        law_logs_cover_the_runs_of_their_events(dbs, files, files, db.path@, id);
    }
    assert(logs =~= covered);
    assert(seq![db].drop_last() =~= Seq::empty());
    assert(seq![db].last() == db);
    assert(seq![file].drop_last() =~= Seq::empty());
    assert(seq![file].last() == file);
    assert(all_db_records(dbs, files, Seq::empty()) =~= Seq::empty());
    assert(all_ndjson_records(dbs, files, Seq::empty()) =~= Seq::empty());
    let a = db_records_with(db, covered);
    let b = file_records(dbs, files, file);
    assert(Seq::<RecordView>::empty() + a =~= a);
    assert(Seq::<RecordView>::empty() + b =~= b);
}

/// The databases are read in their order, each at its place.
pub proof fn law_databases_are_read_in_their_order(
    sources: Sources,
    before: Seq<DbContents>,
    db: DbContents,
    after: Seq<DbContents>,
    covered: Set<Seq<char>>,
)
    requires
        sources.dbs@ == before + seq![db] + after,
        forall|id: Seq<char>| #[trigger]
            covered.contains(id) <==> exists|i: int|
                0 <= i < sources.ndjson@.len() && (#[trigger] sources.ndjson@[i]).kind
                    == CursorNdjsonKind::Events && same_folder(sources.ndjson@[i].path@, db.path@)
                    && covers(log_events(sources.dbs@, sources.ndjson@, sources.ndjson@[i]), id),
    ensures
        source_records(sources) == all_db_records(sources.dbs@, sources.ndjson@, before)
            + db_records_with(db, covered) + all_db_records(sources.dbs@, sources.ndjson@, after)
            + all_ndjson_records(sources.dbs@, sources.ndjson@, sources.ndjson@),
{
    let dbs = sources.dbs@;
    let files = sources.ndjson@;
    law_databases_keep_their_order(dbs, files, before + seq![db], after);
    law_databases_keep_their_order(dbs, files, before, seq![db]);
    let logs = covered_by_logs(dbs, files, files, db.path@);
    assert forall|id: Seq<char>| #[trigger] logs.contains(id) <==> covered.contains(id) by {
        law_logs_cover_the_runs_of_their_events(dbs, files, files, db.path@, id);
    }
    assert(logs =~= covered);
    assert(seq![db].drop_last() =~= Seq::empty());
    assert(seq![db].last() == db);
    assert(all_db_records(dbs, files, Seq::empty()) =~= Seq::empty());
    let here = db_records_with(db, covered);
    assert(Seq::<RecordView>::empty() + here =~= here);
}

/// The files of JSON lines are read in their order behind all databases, each
/// at its place.
pub proof fn law_line_files_are_read_in_their_order(
    sources: Sources,
    before: Seq<NdjsonContents>,
    file: NdjsonContents,
    after: Seq<NdjsonContents>,
)
    requires
        sources.ndjson@ == before + seq![file] + after,
    ensures
        source_records(sources) == all_db_records(sources.dbs@, sources.ndjson@, sources.dbs@)
            + all_ndjson_records(sources.dbs@, sources.ndjson@, before) + file_records(
            sources.dbs@,
            sources.ndjson@,
            file,
        ) + all_ndjson_records(sources.dbs@, sources.ndjson@, after),
{
    let dbs = sources.dbs@;
    let files = sources.ndjson@;
    law_line_files_keep_their_order(dbs, files, before + seq![file], after);
    law_line_files_keep_their_order(dbs, files, before, seq![file]);
    assert(seq![file].drop_last() =~= Seq::empty());
    assert(seq![file].last() == file);
    assert(all_ndjson_records(dbs, files, Seq::empty()) =~= Seq::empty());
    let first = all_db_records(dbs, files, dbs);
    let a = all_ndjson_records(dbs, files, before);
    let here = file_records(dbs, files, file);
    let b = all_ndjson_records(dbs, files, after);
    assert(Seq::<RecordView>::empty() + here =~= here);
    assert(first + (a + here + b) =~= first + a + here + b);
}

} // verus!
