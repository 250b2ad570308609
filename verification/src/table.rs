//! Rows of database tables as JSON objects, and which tables are read.

use vstd::prelude::*;
use vstd::utf8::*;

use crate::codec::{
    json_objects_from_bytes, json_text, objects_in, opt_owned, parse_json, utf8_text,
};
use crate::discovery::CursorDbKind;
use crate::json::{json_views, member_among, Json, JsonView, Member};
use crate::number::{double_finite, double_parts, Number};
use crate::object::{
    insert_member, is_ordered, law_added_member_is_found, law_members_stay_ordered, member_views,
    with_member,
};
use crate::text::{chars_of, text_eq, texts};

verus! {

/// The content of one cell. Floats are given by their bits. A cell that cannot
/// be read is null.
#[derive(Debug)]
pub enum Cell {
    Null,
    Integer(i64),
    Float(u64),
    Text(String),
    Binary(Vec<u8>),
}

/// The mathematical view of a cell.
#[verifier::ext_equal]
pub enum CellView {
    Null,
    Integer(i64),
    Float(u64),
    Text(Seq<char>),
    Binary(Seq<u8>),
}

impl View for Cell {
    type V = CellView;

    open spec fn view(&self) -> CellView {
        match self {
            Cell::Null => CellView::Null,
            Cell::Integer(n) => CellView::Integer(*n),
            Cell::Float(bits) => CellView::Float(*bits),
            Cell::Text(text) => CellView::Text(text@),
            Cell::Binary(bytes) => CellView::Binary(bytes@),
        }
    }
}

/// One cell of a row, under the name of its column.
#[derive(Debug)]
pub struct Column {
    pub name: String,
    pub cell: Cell,
}

/// One row of a table.
#[derive(Debug)]
pub struct Row {
    pub columns: Vec<Column>,
}

impl View for Row {
    type V = Seq<(Seq<char>, CellView)>;

    open spec fn view(&self) -> Seq<(Seq<char>, CellView)> {
        Seq::new(self.columns@.len(), |i: int| (self.columns@[i].name@, self.columns@[i].cell@))
    }
}

/// The number that an integer cell holds.
pub open spec fn integer_number(n: i64) -> Number {
    if n >= 0 {
        Number::PosInt(n as u64)
    } else {
        Number::NegInt(n)
    }
}

/// The JSON value of a blob: the whole of it where it is JSON in UTF-8, else
/// the object that it wraps, or the array of them where there are several.
pub open spec fn blob_value(bytes: Seq<u8>) -> Option<JsonView> {
    if valid_utf8(bytes) && json_text(decode_utf8(bytes)) is Some {
        json_text(decode_utf8(bytes))
    } else {
        let objects = objects_in(bytes);
        if objects.len() == 0 {
            None
        } else if objects.len() == 1 {
            Some(objects[0])
        } else {
            Some(JsonView::Array(objects))
        }
    }
}

/// The JSON value of a cell: a text that is JSON counts as what it spells. A
/// float that is not finite counts as null; null has no value.
pub open spec fn cell_value(cell: CellView) -> Option<JsonView> {
    match cell {
        CellView::Null => None,
        CellView::Integer(n) => Some(JsonView::Number(integer_number(n))),
        CellView::Float(bits) => if double_finite(bits) {
            Some(JsonView::Number(Number::Float(bits)))
        } else {
            Some(JsonView::Null)
        },
        CellView::Text(text) => match json_text(text) {
            Some(v) => Some(v),
            None => Some(JsonView::Text(text)),
        },
        CellView::Binary(bytes) => blob_value(bytes),
    }
}

fn blob_json(bytes: &Vec<u8>) -> (value: Option<Json>)
    ensures
        opt_owned(value) == blob_value(bytes@),
{
    match utf8_text(bytes.as_slice()) {
        Some(text) => match parse_json(text) {
            Some(value) => {
                return Some(value);
            },
            None => {},
        },
        None => {},
    }
    let mut objects = json_objects_from_bytes(bytes.as_slice());
    let ghost views = json_views(objects@);
    if objects.len() == 0 {
        return None;
    }
    if objects.len() == 1 {
        proof {
            assert(views[0] == objects@[0]@);
        }
        return objects.pop();
    }
    let value = Json::Array(objects);
    proof {
        assert(value@->Array_0 =~= views);
    }
    Some(value)
}

/// The JSON value of a cell, if it has one.
pub fn cell_json(cell: &Cell) -> (value: Option<Json>)
    ensures
        opt_owned(value) == cell_value(cell@),
{
    match cell {
        Cell::Null => None,
        Cell::Integer(n) => {
            let n: i64 = *n;
            if n >= 0 {
                Some(Json::Number(Number::PosInt(n as u64)))
            } else {
                Some(Json::Number(Number::NegInt(n)))
            }
        },
        Cell::Float(bits) => {
            let (finite, _, _, _) = double_parts(*bits);
            if finite {
                Some(Json::Number(Number::Float(*bits)))
            } else {
                Some(Json::Null)
            }
        },
        Cell::Text(text) => match parse_json(text.as_str()) {
            Some(value) => Some(value),
            None => Some(Json::Text(text.clone())),
        },
        Cell::Binary(bytes) => blob_json(bytes),
    }
}

/// The members of the object that a row makes: its cells that have a value,
/// under the names of their columns.
pub open spec fn row_members(row: Seq<(Seq<char>, CellView)>) -> Seq<(Seq<char>, JsonView)>
    decreases row.len(),
{
    if row.len() == 0 {
        Seq::empty()
    } else {
        let before = row_members(row.drop_last());
        match cell_value(row.last().1) {
            Some(value) => with_member(before, row.last().0, value),
            None => before,
        }
    }
}

/// The members of the object that a row makes.
pub fn row_object(row: &Row) -> (members: Vec<Member>)
    ensures
        member_views(members@) == row_members(row@),
{
    let mut members: Vec<Member> = Vec::new();
    let mut i: usize = 0;
    proof {
        assert(row@.take(0) =~= Seq::empty());
        assert(member_views(members@) =~= Seq::<(Seq<char>, JsonView)>::empty());
    }
    while i < row.columns.len()
        invariant
            i <= row.columns@.len(),
            member_views(members@) == row_members(row@.take(i as int)),
        decreases row.columns@.len() - i,
    {
        proof {
            assert(row@.take(i + 1).drop_last() =~= row@.take(i as int));
            assert(row@.take(i + 1).last() == row@[i as int]);
        }
        match cell_json(&row.columns[i].cell) {
            Some(value) => {
                insert_member(&mut members, row.columns[i].name.clone(), value);
            },
            None => {},
        }
        i += 1;
    }
    proof {
        assert(row@.take(i as int) =~= row@);
    }
    members
}

/// The object that a row makes has each name once, in order.
pub proof fn law_row_members_are_ordered(row: Seq<(Seq<char>, CellView)>)
    ensures
        is_ordered(row_members(row)),
    decreases row.len(),
{
    if row.len() > 0 {
        law_row_members_are_ordered(row.drop_last());
        match cell_value(row.last().1) {
            Some(value) => {
                law_members_stay_ordered(row_members(row.drop_last()), row.last().0, value);
            },
            None => {},
        }
    }
}

/// The value of the last cell of a row that has one in a column of that name.
pub open spec fn last_cell(row: Seq<(Seq<char>, CellView)>, name: Seq<char>) -> Option<JsonView>
    decreases row.len(),
{
    if row.len() == 0 {
        None
    } else if row.last().0 == name && cell_value(row.last().1) is Some {
        cell_value(row.last().1)
    } else {
        last_cell(row.drop_last(), name)
    }
}

/// The object that a row makes holds each cell that has a value under the name
/// of its column.
pub proof fn law_row_object_holds_its_cells(row: Seq<(Seq<char>, CellView)>, name: Seq<char>)
    ensures
        member_among(row_members(row), name) == last_cell(row, name),
    decreases row.len(),
{
    if row.len() > 0 {
        law_row_object_holds_its_cells(row.drop_last(), name);
        match cell_value(row.last().1) {
            Some(value) => {
                law_added_member_is_found(
                    row_members(row.drop_last()),
                    row.last().0,
                    value,
                    name,
                );
            },
            None => {},
        }
    }
}

/// Whether a character is an ASCII letter or an underscore.
pub open spec fn is_ident_start(c: char) -> bool {
    ('a' <= c && c <= 'z') || ('A' <= c && c <= 'Z') || c == '_'
}

/// Whether a character is an ASCII letter or digit or an underscore.
pub open spec fn is_ident_char(c: char) -> bool {
    is_ident_start(c) || ('0' <= c && c <= '9')
}

/// Whether a name can stand in a query as it is: letters, digits and
/// underscores, and no digit at its start.
pub open spec fn safe_ident(name: Seq<char>) -> bool {
    &&& name.len() > 0
    &&& is_ident_start(name[0])
    &&& forall|i: int| 0 <= i < name.len() ==> is_ident_char(#[trigger] name[i])
}

/// Whether a name can stand in a query as it is.
pub fn is_safe_ident(name: &str) -> (safe: bool)
    ensures
        safe == safe_ident(name@),
{
    let chars = chars_of(name);
    if chars.len() == 0 {
        return false;
    }
    let mut i: usize = 0;
    while i < chars.len()
        invariant
            chars@ == name@,
            chars@.len() > 0,
            i <= chars@.len(),
            i > 0 ==> is_ident_start(name@[0]),
            forall|j: int| 0 <= j < i ==> is_ident_char(#[trigger] name@[j]),
        decreases chars@.len() - i,
    {
        let c: char = chars[i];
        let start = ('a' <= c && c <= 'z') || ('A' <= c && c <= 'Z') || c == '_';
        let digit = '0' <= c && c <= '9';
        if !start && (i == 0 || !digit) {
            proof {
                assert(!is_ident_start(name@[0]) || !is_ident_char(name@[i as int]));
            }
            return false;
        }
        i += 1;
    }
    true
}

/// Whether a table is read: its name is safe, and it is `runs` or `run_events`
/// where the SDK catalog has a table `runs`.
pub open spec fn is_wanted(kind: CursorDbKind, names: Seq<Seq<char>>, name: Seq<char>) -> bool {
    &&& safe_ident(name)
    &&& kind == CursorDbKind::Index && names.contains("runs"@) ==> name == "runs"@ || name
        == "run_events"@
}

/// The tables that are read, out of those that a database has.
pub open spec fn wanted_tables(kind: CursorDbKind, names: Seq<Seq<char>>) -> Seq<Seq<char>> {
    names.filter(|name: Seq<char>| is_wanted(kind, names, name))
}

pub(crate) fn holds_text(list: &Vec<String>, text: &str) -> (yes: bool)
    ensures
        yes == texts(list@).contains(text@),
{
    let mut i: usize = 0;
    while i < list.len()
        invariant
            i <= list@.len(),
            forall|j: int| 0 <= j < i ==> (#[trigger] texts(list@)[j]) != text@,
        decreases list@.len() - i,
    {
        if text_eq(list[i].as_str(), text) {
            proof {
                assert(texts(list@)[i as int] == text@);
            }
            return true;
        }
        i += 1;
    }
    false
}

/// Whether a table is read, out of those that a database has.
pub fn wants_table(kind: CursorDbKind, names: &Vec<String>, name: &str) -> (yes: bool)
    ensures
        yes == is_wanted(kind, texts(names@), name@),
{
    is_safe_ident(name) && (kind != CursorDbKind::Index || !holds_text(names, "runs") || text_eq(
        name,
        "runs",
    ) || text_eq(name, "run_events"))
}

/// The tables to read, out of those that a database has.
pub fn table_names(kind: CursorDbKind, names: &Vec<String>) -> (wanted: Vec<String>)
    ensures
        texts(wanted@) == wanted_tables(kind, texts(names@)),
{
    let ghost all = texts(names@);
    let ghost pred = |name: Seq<char>| is_wanted(kind, all, name);
    let mut wanted: Vec<String> = Vec::new();
    let mut i: usize = 0;
    proof {
        assert(all.take(0) =~= Seq::empty());
        reveal(Seq::filter);
        assert(texts(wanted@) =~= Seq::<Seq<char>>::empty());
    }
    while i < names.len()
        invariant
            all == texts(names@),
            pred == (|name: Seq<char>| is_wanted(kind, all, name)),
            i <= names@.len(),
            texts(wanted@) == all.take(i as int).filter(pred),
        decreases names@.len() - i,
    {
        let ghost before = texts(wanted@);
        proof {
            reveal(Seq::filter);
            assert(all.take(i + 1).drop_last() =~= all.take(i as int));
            assert(all.take(i + 1).last() == names@[i as int]@);
        }
        if wants_table(kind, names, names[i].as_str()) {
            wanted.push(names[i].clone());
            proof {
                assert(texts(wanted@) =~= before.push(names@[i as int]@));
            }
        }
        i += 1;
    }
    proof {
        assert(all.take(i as int) =~= all);
    }
    wanted
}

proof fn lemma_filter_keeps_all(list: Seq<Seq<char>>, pred: spec_fn(Seq<char>) -> bool)
    requires
        forall|i: int| 0 <= i < list.len() ==> pred(#[trigger] list[i]),
    ensures
        list.filter(pred) == list,
    decreases list.len(),
{
    reveal(Seq::filter);
    if list.len() > 0 {
        assert forall|i: int| 0 <= i < list.drop_last().len() implies pred(
            #[trigger] list.drop_last()[i],
        ) by {
            assert(pred(list[i]));
        }
        lemma_filter_keeps_all(list.drop_last(), pred);
        assert(pred(list[list.len() - 1]));
        assert(list.drop_last().push(list.last()) =~= list);
    }
}

/// Choosing the tables to read twice changes nothing.
pub proof fn law_table_choice_is_stable(kind: CursorDbKind, names: Seq<Seq<char>>)
    ensures
        wanted_tables(kind, wanted_tables(kind, names)) == wanted_tables(kind, names),
{
    let pred = |name: Seq<char>| is_wanted(kind, names, name);
    let wanted = wanted_tables(kind, names);
    let again = |name: Seq<char>| is_wanted(kind, wanted, name);
    assert forall|i: int| 0 <= i < wanted.len() implies again(#[trigger] wanted[i]) by {
        names.lemma_filter_pred(pred, i);
        if wanted.contains("runs"@) {
            names.lemma_filter_contains_rev(pred, "runs"@);
        }
    }
    lemma_filter_keeps_all(wanted, again);
}

/// Only tables with safe names are read.
pub proof fn law_read_tables_have_safe_names(kind: CursorDbKind, names: Seq<Seq<char>>, i: int)
    requires
        0 <= i < wanted_tables(kind, names).len(),
    ensures
        safe_ident(wanted_tables(kind, names)[i]),
{
    names.lemma_filter_pred(|name: Seq<char>| is_wanted(kind, names, name), i);
}

} // verus!
