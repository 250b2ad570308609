//! JSON values: the tree that the adapter reads, and its mathematical view.

use vstd::prelude::*;

use crate::number::{count_from_number, count_of, is_amount, number_is_amount, Number};
use crate::text::{opt_text, text_eq, trim, trimmed};

verus! {

/// A JSON value. The members of an object stand in the order in which the
/// object is walked.
#[derive(Debug)]
pub enum Json {
    Null,
    Bool(bool),
    Number(Number),
    Text(String),
    Array(Vec<Json>),
    Object(Vec<Member>),
}

/// One member of a JSON object.
#[derive(Debug)]
pub struct Member {
    pub key: String,
    pub value: Json,
}

/// The mathematical view of a JSON value.
pub enum JsonView {
    Null,
    Bool(bool),
    Number(Number),
    Text(Seq<char>),
    Array(Seq<JsonView>),
    Object(Seq<(Seq<char>, JsonView)>),
}

pub open spec fn json_view(json: Json) -> JsonView
    decreases json,
{
    match json {
        Json::Null => JsonView::Null,
        Json::Bool(b) => JsonView::Bool(b),
        Json::Number(n) => JsonView::Number(n),
        Json::Text(text) => JsonView::Text(text@),
        Json::Array(items) => JsonView::Array(
            Seq::new(
                items@.len(),
                |i: int|
                    if 0 <= i < items@.len() {
                        json_view(items@[i])
                    } else {
                        JsonView::Null
                    },
            ),
        ),
        Json::Object(members) => JsonView::Object(
            Seq::new(
                members@.len(),
                |i: int|
                    if 0 <= i < members@.len() {
                        (members@[i].key@, json_view(members@[i].value))
                    } else {
                        (Seq::empty(), JsonView::Null)
                    },
            ),
        ),
    }
}

impl View for Json {
    type V = JsonView;

    open spec fn view(&self) -> JsonView {
        json_view(*self)
    }
}

/// The view of a JSON value that may be absent.
pub open spec fn opt_json(json: Option<&Json>) -> Option<JsonView> {
    match json {
        Some(j) => Some(j@),
        None => None,
    }
}

/// The views of a list of JSON values.
pub open spec fn json_views(list: Seq<Json>) -> Seq<JsonView> {
    Seq::new(list.len(), |i: int| list[i]@)
}

/// How many values a value directly holds.
pub open spec fn child_count(v: JsonView) -> nat {
    match v {
        JsonView::Array(items) => items.len(),
        JsonView::Object(members) => members.len(),
        _ => 0,
    }
}

/// The `i`-th value that a value directly holds.
pub open spec fn child(v: JsonView, i: int) -> JsonView {
    match v {
        JsonView::Array(items) => items[i],
        JsonView::Object(members) => members[i].1,
        _ => JsonView::Null,
    }
}

/// A value is larger than each value it directly holds.
pub proof fn lemma_child_is_smaller(v: JsonView, i: int)
    requires
        0 <= i < child_count(v),
    ensures
        decreases_to!(v => child(v, i)),
{
    match v {
        JsonView::Array(items) => {
            assert(decreases_to!(v => v->Array_0));
            assert(decreases_to!(items => items[i]));
        },
        JsonView::Object(members) => {
            assert(decreases_to!(v => v->Object_0));
            assert(decreases_to!(members => members[i]));
            assert(decreases_to!(members[i] => members[i].1));
        },
        _ => {},
    }
}

/// The length of the longest text among the texts of a value.
pub open spec fn longest_text(v: JsonView) -> nat
    decreases v, child_count(v) + 1,
{
    match v {
        JsonView::Text(text) => text.len(),
        _ => longest_text_below(v, child_count(v)),
    }
}

/// The length of the longest text among the first `n` values that `v` holds.
pub open spec fn longest_text_below(v: JsonView, n: nat) -> nat
    decreases v, n,
{
    if n == 0 || n > child_count(v) {
        0
    } else {
        proof {
            lemma_child_is_smaller(v, n - 1);
        }
        let before = longest_text_below(v, (n - 1) as nat);
        let here = longest_text(child(v, n - 1));
        if here > before {
            here
        } else {
            before
        }
    }
}

/// No value that `v` holds has a longer text than `v`.
pub proof fn lemma_child_texts_are_no_longer(v: JsonView, i: int)
    requires
        0 <= i < child_count(v),
    ensures
        longest_text(child(v, i)) <= longest_text(v),
{
    lemma_longest_text_below(v, i, child_count(v));
}

proof fn lemma_longest_text_below(v: JsonView, i: int, n: nat)
    requires
        0 <= i < n <= child_count(v),
    ensures
        longest_text(child(v, i)) <= longest_text_below(v, n),
    decreases n,
{
    if i < n - 1 {
        lemma_longest_text_below(v, i, (n - 1) as nat);
    }
}

/// The value of the member of `v` named `key`. A value that is not an object
/// has no members; of two members with one name the later counts.
pub open spec fn member(v: JsonView, key: Seq<char>) -> Option<JsonView> {
    match v {
        JsonView::Object(members) => member_among(members, key),
        _ => None,
    }
}

/// The value of the last of `members` named `key`.
pub open spec fn member_among(members: Seq<(Seq<char>, JsonView)>, key: Seq<char>) -> Option<
    JsonView,
>
    decreases members.len(),
{
    if members.len() == 0 {
        None
    } else if members.last().0 == key {
        Some(members.last().1)
    } else {
        member_among(members.drop_last(), key)
    }
}

/// The text of a value, without surrounding white space, unless it is blank.
pub open spec fn trimmed_text(v: Option<JsonView>) -> Option<Seq<char>> {
    match v {
        Some(JsonView::Text(text)) => if trimmed(text).len() > 0 {
            Some(trimmed(text))
        } else {
            None
        },
        _ => None,
    }
}

/// The names that a list of texts holds.
pub open spec fn names(keys: Seq<&str>) -> Seq<Seq<char>> {
    Seq::new(keys.len(), |i: int| keys[i]@)
}

/// The first text that is not blank among the members of `v` named in `keys`.
pub open spec fn text_at(v: JsonView, keys: Seq<Seq<char>>) -> Option<Seq<char>>
    decreases keys.len(),
{
    if keys.len() == 0 {
        None
    } else {
        match trimmed_text(member(v, keys[0])) {
            Some(text) => Some(text),
            None => text_at(v, keys.skip(1)),
        }
    }
}

/// The token count that a value holds.
pub open spec fn count_in(v: Option<JsonView>) -> Option<u64> {
    match v {
        Some(JsonView::Number(number)) => count_of(number),
        _ => None,
    }
}

/// The first token count among the members of `v` named in `keys`.
pub open spec fn count_at(v: JsonView, keys: Seq<Seq<char>>) -> Option<u64>
    decreases keys.len(),
{
    if keys.len() == 0 {
        None
    } else {
        match count_in(member(v, keys[0])) {
            Some(count) => Some(count),
            None => count_at(v, keys.skip(1)),
        }
    }
}

/// The finite number that a value holds.
pub open spec fn amount_in(v: Option<JsonView>) -> Option<Number> {
    match v {
        Some(JsonView::Number(number)) => if is_amount(number) {
            Some(number)
        } else {
            None
        },
        _ => None,
    }
}

/// The first finite number among the members of `v` named in `keys`.
pub open spec fn amount_at(v: JsonView, keys: Seq<Seq<char>>) -> Option<Number>
    decreases keys.len(),
{
    if keys.len() == 0 {
        None
    } else {
        match amount_in(member(v, keys[0])) {
            Some(amount) => Some(amount),
            None => amount_at(v, keys.skip(1)),
        }
    }
}

impl Json {
    /// The value of the member named `key`.
    pub fn get<'a>(&'a self, key: &str) -> (found: Option<&'a Json>)
        ensures
            opt_json(found) == member(self@, key@),
    {
        match self {
            Json::Object(members) => {
                let ghost views = self@->Object_0;
                let mut i: usize = members.len();
                proof {
                    assert(views.take(i as int) =~= views);
                }
                while i > 0
                    invariant
                        i <= members@.len(),
                        self@ == JsonView::Object(views),
                        views.len() == members@.len(),
                        forall|j: int|
                            0 <= j < views.len() ==> #[trigger] views[j] == (
                                members@[j].key@,
                                members@[j].value@,
                            ),
                        member(self@, key@) == member_among(views.take(i as int), key@),
                    decreases i,
                {
                    proof {
                        assert(views.take(i as int).last() == views[i - 1]);
                        assert(views.take(i as int).drop_last() =~= views.take(i - 1));
                    }
                    if text_eq(members[i - 1].key.as_str(), key) {
                        return Some(&members[i - 1].value);
                    }
                    i -= 1;
                }
                None
            },
            _ => None,
        }
    }

    /// The text that the value holds.
    pub fn as_str<'a>(&'a self) -> (text: Option<&'a str>)
        ensures
            match text {
                Some(t) => self@ == JsonView::Text(t@),
                None => !(self@ is Text),
            },
    {
        match self {
            Json::Text(text) => Some(text.as_str()),
            _ => None,
        }
    }

    /// Whether the value is an object.
    pub fn is_object(&self) -> (yes: bool)
        ensures
            yes == (self@ is Object),
    {
        match self {
            Json::Object(_) => true,
            _ => false,
        }
    }

    /// A copy of the value.
    pub fn duplicate(&self) -> (copy: Json)
        ensures
            copy@ == self@,
        decreases self@,
    {
        match self {
            Json::Null => Json::Null,
            Json::Bool(b) => Json::Bool(*b),
            Json::Number(n) => Json::Number(*n),
            Json::Text(text) => Json::Text(text.clone()),
            Json::Array(items) => {
                let mut out: Vec<Json> = Vec::new();
                let mut i: usize = 0;
                while i < items.len()
                    invariant
                        *self == Json::Array(*items),
                        i <= items@.len(),
                        out@.len() == i,
                        forall|j: int| 0 <= j < i ==> (#[trigger] out@[j])@ == items@[j]@,
                    decreases items@.len() - i,
                {
                    proof {
                        assert(child(self@, i as int) == items@[i as int]@);
                        lemma_child_is_smaller(self@, i as int);
                    }
                    out.push(items[i].duplicate());
                    i += 1;
                }
                let copy = Json::Array(out);
                proof {
                    assert(copy@->Array_0 =~= self@->Array_0);
                }
                copy
            },
            Json::Object(members) => {
                let mut out: Vec<Member> = Vec::new();
                let mut i: usize = 0;
                while i < members.len()
                    invariant
                        *self == Json::Object(*members),
                        i <= members@.len(),
                        out@.len() == i,
                        forall|j: int|
                            0 <= j < i ==> (#[trigger] out@[j]).key@ == members@[j].key@
                                && out@[j].value@ == members@[j].value@,
                    decreases members@.len() - i,
                {
                    proof {
                        assert(child(self@, i as int) == members@[i as int].value@);
                        lemma_child_is_smaller(self@, i as int);
                    }
                    out.push(
                        Member {
                            key: members[i].key.clone(),
                            value: members[i].value.duplicate(),
                        },
                    );
                    i += 1;
                }
                let copy = Json::Object(out);
                proof {
                    assert(copy@->Object_0 =~= self@->Object_0);
                }
                copy
            },
        }
    }
}

/// The text of a value, without surrounding white space, unless it is blank.
pub fn nonblank<'a>(value: Option<&'a Json>) -> (text: Option<&'a str>)
    ensures
        crate::text::opt_view(text) == trimmed_text(opt_json(value)),
{
    match value {
        Some(json) => match json.as_str() {
            Some(text) => {
                let inner = trim(text);
                if inner.is_empty() {
                    None
                } else {
                    Some(inner)
                }
            },
            None => None,
        },
        None => None,
    }
}

/// The first text that is not blank among the members named in `keys`.
pub fn json_string(value: &Json, keys: &[&str]) -> (text: Option<String>)
    ensures
        opt_text(text) == text_at(value@, names(keys@)),
{
    let mut i: usize = 0;
    proof {
        assert(names(keys@).skip(0) =~= names(keys@));
    }
    while i < keys.len()
        invariant
            i <= keys@.len(),
            text_at(value@, names(keys@)) == text_at(value@, names(keys@).skip(i as int)),
        decreases keys@.len() - i,
    {
        proof {
            assert(names(keys@).skip(i as int)[0] == keys@[i as int]@);
            assert(names(keys@).skip(i as int).skip(1) =~= names(keys@).skip(i + 1));
        }
        match nonblank(value.get(keys[i])) {
            Some(text) => {
                return Some(text.to_owned());
            },
            None => {},
        }
        i += 1;
    }
    None
}

/// The token count that a value holds.
pub fn json_u64(value: &Json) -> (count: Option<u64>)
    ensures
        count == count_in(Some(value@)),
{
    match value {
        Json::Number(number) => count_from_number(*number),
        _ => None,
    }
}

/// The finite number that a value holds.
pub fn json_f64(value: &Json) -> (amount: Option<Number>)
    ensures
        amount == amount_in(Some(value@)),
{
    match value {
        Json::Number(number) => if number_is_amount(*number) {
            Some(*number)
        } else {
            None
        },
        _ => None,
    }
}

/// The first token count among the members named in `keys`.
pub fn json_u64_keys(value: &Json, keys: &[&str]) -> (count: Option<u64>)
    ensures
        count == count_at(value@, names(keys@)),
{
    let mut i: usize = 0;
    proof {
        assert(names(keys@).skip(0) =~= names(keys@));
    }
    while i < keys.len()
        invariant
            i <= keys@.len(),
            count_at(value@, names(keys@)) == count_at(value@, names(keys@).skip(i as int)),
        decreases keys@.len() - i,
    {
        proof {
            assert(names(keys@).skip(i as int)[0] == keys@[i as int]@);
            assert(names(keys@).skip(i as int).skip(1) =~= names(keys@).skip(i + 1));
        }
        match value.get(keys[i]) {
            Some(found) => match json_u64(found) {
                Some(count) => {
                    return Some(count);
                },
                None => {},
            },
            None => {},
        }
        i += 1;
    }
    None
}

/// The first finite number among the members named in `keys`.
pub fn json_f64_keys(value: &Json, keys: &[&str]) -> (amount: Option<Number>)
    ensures
        amount == amount_at(value@, names(keys@)),
{
    let mut i: usize = 0;
    proof {
        assert(names(keys@).skip(0) =~= names(keys@));
    }
    while i < keys.len()
        invariant
            i <= keys@.len(),
            amount_at(value@, names(keys@)) == amount_at(value@, names(keys@).skip(i as int)),
        decreases keys@.len() - i,
    {
        proof {
            assert(names(keys@).skip(i as int)[0] == keys@[i as int]@);
            assert(names(keys@).skip(i as int).skip(1) =~= names(keys@).skip(i + 1));
        }
        match value.get(keys[i]) {
            Some(found) => match json_f64(found) {
                Some(amount) => {
                    return Some(amount);
                },
                None => {},
            },
            None => {},
        }
        i += 1;
    }
    None
}

} // verus!
