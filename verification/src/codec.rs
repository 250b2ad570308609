//! Reading JSON out of text, hex and binary blobs.

use vstd::prelude::*;
use vstd::slice::slice_subrange;
use vstd::utf8::*;

use crate::json::{json_views, longest_text, Json, JsonView, Member};
use crate::number::{lesser, Number};
use crate::text::{chars_of, is_white, trim, trimmed};

verus! {

/// The view of an owned JSON value that may be absent.
pub open spec fn opt_owned(json: Option<Json>) -> Option<JsonView> {
    match json {
        Some(j) => Some(j@),
        None => None,
    }
}

/// The JSON value type of serde_json.
#[verifier::external_type_specification]
#[verifier::external_body]
pub struct ExValue(serde_json::Value);

/// What a serde_json value holds.
pub uninterp spec fn value_tree(value: serde_json::Value) -> JsonView;

/// One level of a serde_json value.
pub enum ValueParts {
    Null,
    Bool(bool),
    Number(Number),
    Text(String),
    Array(Vec<serde_json::Value>),
    Object(Vec<(String, serde_json::Value)>),
}

/// Takes a `serde_json::Value` apart by its variant: what it holds is the
/// variant with its fields, and a number is an unsigned integer where
/// `as_u64` gives one, else a signed one where `as_i64` gives one, else a
/// double. The members of an object come in the order of its map.
#[verifier::external_body]
fn value_parts(value: serde_json::Value) -> (parts: ValueParts)
    ensures
        match parts {
            ValueParts::Null => value_tree(value) == JsonView::Null,
            ValueParts::Bool(b) => value_tree(value) == JsonView::Bool(b),
            ValueParts::Number(n) => value_tree(value) == JsonView::Number(n),
            ValueParts::Text(text) => value_tree(value) == JsonView::Text(text@),
            ValueParts::Array(items) => value_tree(value) == JsonView::Array(
                items@.map_values(|item: serde_json::Value| value_tree(item)),
            ),
            ValueParts::Object(members) => value_tree(value) == JsonView::Object(
                members@.map_values(
                    |member: (String, serde_json::Value)| (member.0@, value_tree(member.1)),
                ),
            ),
        },
{
    match value {
        serde_json::Value::Null => ValueParts::Null,
        serde_json::Value::Bool(b) => ValueParts::Bool(b),
        serde_json::Value::Number(n) => ValueParts::Number(match (n.as_u64(), n.as_i64()) {
            (Some(u), _) => Number::PosInt(u),
            (None, Some(i)) => Number::NegInt(i),
            (None, None) => Number::Float(n.as_f64().map_or(0, |x| x.to_bits())),
        }),
        serde_json::Value::String(text) => ValueParts::Text(text),
        serde_json::Value::Array(items) => ValueParts::Array(items),
        serde_json::Value::Object(members) => ValueParts::Object(members.into_iter().collect()),
    }
}

/// The library's form of a `serde_json::Value`.
pub fn json_from_value(value: serde_json::Value) -> (json: Json)
    ensures
        json@ == value_tree(value),
    decreases value_tree(value),
{
    match value_parts(value) {
        ValueParts::Null => Json::Null,
        ValueParts::Bool(b) => Json::Bool(b),
        ValueParts::Number(n) => Json::Number(n),
        ValueParts::Text(text) => Json::Text(text),
        ValueParts::Array(items) => {
            let ghost source = items@;
            let ghost views = source.map_values(|item: serde_json::Value| value_tree(item));
            let mut out: Vec<Json> = Vec::new();
            for item in it: items
                invariant
                    it.seq() == source,
                    value_tree(value) == JsonView::Array(views),
                    views == source.map_values(|item: serde_json::Value| value_tree(item)),
                    out@.len() == it.index(),
                    forall|j: int| 0 <= j < out@.len() ==> (#[trigger] out@[j])@ == views[j],
            {
                proof {
                    assert(value_tree(item) == views[it.index() as int]);
                    assert(decreases_to!(value_tree(value) => value_tree(value)->Array_0));
                    assert(decreases_to!(views => views[it.index() as int]));
                }
                out.push(json_from_value(item));
            }
            let json = Json::Array(out);
            assert(json@->Array_0 =~= views);
            json
        },
        ValueParts::Object(members) => {
            let ghost source = members@;
            let ghost views = source.map_values(
                |member: (String, serde_json::Value)| (member.0@, value_tree(member.1)),
            );
            let mut out: Vec<Member> = Vec::new();
            for member in it: members
                invariant
                    it.seq() == source,
                    value_tree(value) == JsonView::Object(views),
                    views == source.map_values(
                        |member: (String, serde_json::Value)| (member.0@, value_tree(member.1)),
                    ),
                    out@.len() == it.index(),
                    forall|j: int|
                        0 <= j < out@.len() ==> ((#[trigger] out@[j]).key@, out@[j].value@)
                            == views[j],
            {
                proof {
                    assert((member.0@, value_tree(member.1)) == views[it.index() as int]);
                    assert(decreases_to!(value_tree(value) => value_tree(value)->Object_0));
                    assert(decreases_to!(views => views[it.index() as int]));
                    assert(decreases_to!(views[it.index() as int] => views[it.index() as int].1));
                }
                out.push(Member { key: member.0, value: json_from_value(member.1) });
            }
            let json = Json::Object(out);
            assert(json@->Object_0 =~= views);
            json
        },
    }
}

/// The JSON value that a whole text spells, as `serde_json::from_str` reads it.
pub uninterp spec fn json_text(text: Seq<char>) -> Option<JsonView>;

/// `serde_json::from_str` into a `serde_json::Value`: a function of the text
/// alone. Each text inside the value is spelled in quotation marks by at least
/// as many characters as it has, so it is shorter than the whole text.
#[verifier::external_body]
fn read_value(text: &str) -> (value: Option<serde_json::Value>)
    ensures
        match value {
            Some(v) => json_text(text@) == Some(value_tree(v)) && longest_text(value_tree(v))
                < text@.len(),
            None => json_text(text@) is None,
        },
{
    serde_json::from_str(text).ok()
}

/// The JSON value at the start of some bytes, and the number of bytes that it
/// takes, as a `serde_json::StreamDeserializer` reads them.
pub uninterp spec fn json_prefix(bytes: Seq<u8>) -> Option<(JsonView, nat)>;

/// The first item of `serde_json::Deserializer::from_slice(..).into_iter()`,
/// with the `byte_offset` after it: a function of the bytes alone. The offset
/// does not pass the end of the bytes.
#[verifier::external_body]
fn read_prefix(bytes: &[u8]) -> (found: Option<(serde_json::Value, usize)>)
    ensures
        match found {
            Some((v, n)) => json_prefix(bytes@) == Some((value_tree(v), n as nat)) && n
                <= bytes@.len(),
            None => json_prefix(bytes@) is None,
        },
{
    let mut stream = serde_json::Deserializer::from_slice(bytes).into_iter::<serde_json::Value>();
    let value = stream.next()?.ok()?;
    Some((value, stream.byte_offset()))
}

/// `memchr::memchr`: the index of the first occurrence of a byte.
pub assume_specification [memchr::memchr] (needle: u8, haystack: &[u8]) -> (found: Option<usize>)
    ensures
        match found {
            Some(i) => i < haystack@.len() && haystack@[i as int] == needle && forall|j: int|
                0 <= j < i ==> haystack@[j] != needle,
            None => forall|j: int| 0 <= j < haystack@.len() ==> haystack@[j] != needle,
        },
;

/// `std::str::from_utf8`: the text that the bytes encode, if they are UTF-8.
#[verifier::external_body]
pub(crate) fn utf8_text<'a>(bytes: &'a [u8]) -> (text: Option<&'a str>)
    ensures
        match text {
            Some(t) => valid_utf8(bytes@) && t@ == decode_utf8(bytes@),
            None => !valid_utf8(bytes@),
        },
{
    std::str::from_utf8(bytes).ok()
}

/// Reads a whole text as one JSON value.
pub fn parse_json(text: &str) -> (json: Option<Json>)
    ensures
        opt_owned(json) == json_text(text@),
        json matches Some(j) ==> longest_text(j@) < text@.len(),
{
    match read_value(text) {
        Some(value) => Some(json_from_value(value)),
        None => None,
    }
}

/// The objects that stand in some bytes, from left to right: at each opening
/// brace the longest reading wins, and the search goes on behind it.
pub open spec fn objects_in(data: Seq<u8>) -> Seq<JsonView>
    decreases data.len(),
{
    if data.len() == 0 {
        Seq::empty()
    } else if data[0] != 0x7b {
        objects_in(data.skip(1))
    } else {
        match json_prefix(data) {
            Some((JsonView::Object(members), taken)) => seq![JsonView::Object(members)]
                + objects_in(
                data.skip(lesser(if taken > 0 { taken } else { 1 }, data.len()) as int),
            ),
            _ => objects_in(data.skip(1)),
        }
    }
}

proof fn lemma_skip_to_brace(data: Seq<u8>, from: int, to: int)
    requires
        0 <= from <= to <= data.len(),
        forall|j: int| from <= j < to ==> data[j] != 0x7b,
    ensures
        objects_in(data.skip(from)) == objects_in(data.skip(to)),
    decreases to - from,
{
    if from < to {
        assert(data.skip(from)[0] == data[from]);
        assert(data.skip(from).skip(1) =~= data.skip(from + 1));
        lemma_skip_to_brace(data, from + 1, to);
    }
}

/// Pulls the JSON objects out of a blob that wraps them in other bytes.
pub fn json_objects_from_bytes(data: &[u8]) -> (objects: Vec<Json>)
    ensures
        json_views(objects@) == objects_in(data@),
{
    let mut objects: Vec<Json> = Vec::new();
    let mut offset: usize = 0;
    proof {
        assert(data@.skip(0) =~= data@);
        assert(json_views(objects@) + objects_in(data@) =~= objects_in(data@));
    }
    while offset < data.len()
        invariant
            offset <= data@.len(),
            objects_in(data@) == json_views(objects@) + objects_in(data@.skip(offset as int)),
        decreases data@.len() - offset,
    {
        let tail = slice_subrange(data, offset, data.len());
        proof {
            assert(tail@ =~= data@.skip(offset as int));
            assert forall|j: int| 0 <= j < tail@.len() implies #[trigger] tail@[j] == data@[offset
                + j] by {}
        }
        match memchr::memchr(0x7b, tail) {
            None => {
                proof {
                    assert forall|j: int| offset <= j < data@.len() implies data@[j] != 0x7b by {
                        assert(tail@[j - offset] == data@[j]);
                    }
                    lemma_skip_to_brace(data@, offset as int, data@.len() as int);
                    assert(data@.skip(data@.len() as int) =~= Seq::<u8>::empty());
                    assert(json_views(objects@) + Seq::<JsonView>::empty() =~= json_views(
                        objects@,
                    ));
                }
                return objects;
            },
            Some(rel) => {
                proof {
                    assert forall|j: int| offset <= j < offset + rel implies data@[j] != 0x7b by {
                        assert(tail@[j - offset] == data@[j]);
                    }
                    assert(tail@[rel as int] == data@[offset + rel]);
                    lemma_skip_to_brace(data@, offset as int, offset + rel);
                }
                offset = offset + rel;
                let rest = slice_subrange(data, offset, data.len());
                let ghost here = data@.skip(offset as int);
                proof {
                    assert(rest@ =~= here);
                    assert(here[0] == 0x7b);
                    assert(here.skip(1) =~= data@.skip(offset + 1));
                }
                match read_prefix(rest) {
                    Some((value, taken)) => {
                        let json = json_from_value(value);
                        let step: usize = if taken > 0 {
                            taken
                        } else {
                            1
                        };
                        if json.is_object() {
                            let ghost before = objects@;
                            proof {
                                assert(here.skip(step as int) =~= data@.skip(offset + step));
                                assert(seq![json@] + objects_in(here.skip(step as int))
                                    == objects_in(here));
                            }
                            objects.push(json);
                            proof {
                                assert(json_views(objects@) =~= json_views(before).push(json@));
                                assert(json_views(before) + (seq![json@] + objects_in(
                                    here.skip(step as int),
                                )) =~= json_views(objects@) + objects_in(here.skip(step as int)));
                            }
                            offset = offset + step;
                        } else {
                            offset = offset + 1;
                        }
                    },
                    None => {
                        offset = offset + 1;
                    },
                }
            },
        }
    }
    proof {
        assert(data@.skip(offset as int) =~= Seq::<u8>::empty());
        assert(json_views(objects@) + Seq::<JsonView>::empty() =~= json_views(objects@));
    }
    objects
}

/// The value of a hexadecimal digit.
pub open spec fn hex_digit(c: char) -> Option<nat> {
    let u = c as nat;
    if '0' <= c <= '9' {
        Some((u - 0x30) as nat)
    } else if 'a' <= c <= 'f' {
        Some((u - 0x61 + 10) as nat)
    } else if 'A' <= c <= 'F' {
        Some((u - 0x41 + 10) as nat)
    } else {
        None
    }
}

/// The byte that two characters spell in hexadecimal. A plus sign may stand
/// before a single digit.
pub open spec fn hex_pair(high: char, low: char) -> Option<u8> {
    match (hex_digit(high), hex_digit(low)) {
        (Some(h), Some(l)) => Some((16 * h + l) as u8),
        (None, Some(l)) => if high == '+' {
            Some(l as u8)
        } else {
            None
        },
        _ => None,
    }
}

/// The bytes that the pairs of characters of a text spell in hexadecimal.
pub open spec fn hex_pairs(s: Seq<char>) -> Option<Seq<u8>>
    decreases s.len(),
{
    if s.len() < 2 {
        if s.len() == 0 {
            Some(Seq::empty())
        } else {
            None
        }
    } else {
        match (hex_pairs(s.take(s.len() - 2)), hex_pair(s[s.len() - 2], s[s.len() - 1])) {
            (Some(head), Some(byte)) => Some(head.push(byte)),
            _ => None,
        }
    }
}

/// The bytes that a text spells in hexadecimal. The empty text spells none.
pub open spec fn hex_bytes(s: Seq<char>) -> Option<Seq<u8>> {
    if s.len() == 0 {
        None
    } else {
        hex_pairs(s)
    }
}

/// The bytes of a vector that may be absent.
pub open spec fn opt_bytes(bytes: Option<Vec<u8>>) -> Option<Seq<u8>> {
    match bytes {
        Some(b) => Some(b@),
        None => None,
    }
}

fn hex_value(c: char) -> (value: Option<u8>)
    ensures
        match value {
            Some(v) => hex_digit(c) == Some(v as nat) && v < 16,
            None => hex_digit(c) is None,
        },
{
    let u: u32 = c as u32;
    if 0x30 <= u && u <= 0x39 {
        Some((u - 0x30) as u8)
    } else if 0x61 <= u && u <= 0x66 {
        Some((u - 0x61 + 10) as u8)
    } else if 0x41 <= u && u <= 0x46 {
        Some((u - 0x41 + 10) as u8)
    } else {
        None
    }
}

fn hex_byte(high: char, low: char) -> (byte: Option<u8>)
    ensures
        byte == hex_pair(high, low),
{
    match (hex_value(high), hex_value(low)) {
        (Some(h), Some(l)) => Some(16 * h + l),
        (None, Some(l)) => if high == '+' {
            Some(l)
        } else {
            None
        },
        _ => None,
    }
}

proof fn lemma_hex_prefix_fails(s: Seq<char>, n: int)
    requires
        0 <= n <= s.len(),
        n % 2 == 0,
        s.len() % 2 == 0,
        hex_pairs(s.take(n)) is None,
    ensures
        hex_pairs(s) is None,
    decreases s.len() - n,
{
    if n < s.len() {
        assert(s.take(n + 2).take(n) =~= s.take(n));
        lemma_hex_prefix_fails(s, n + 2);
    } else {
        assert(s.take(n) =~= s);
    }
}

proof fn lemma_hex_needs_pairs(s: Seq<char>)
    requires
        s.len() % 2 != 0,
    ensures
        hex_pairs(s) is None,
    decreases s.len(),
{
    if s.len() >= 2 {
        lemma_hex_needs_pairs(s.take(s.len() - 2));
    }
}

/// Decodes a text of hexadecimal pairs.
pub fn hex_decode(hex: &str) -> (bytes: Option<Vec<u8>>)
    ensures
        opt_bytes(bytes) == hex_bytes(hex@),
{
    let chars = chars_of(hex);
    if chars.len() % 2 != 0 {
        proof {
            lemma_hex_needs_pairs(hex@);
        }
        return None;
    }
    if chars.len() == 0 {
        return None;
    }
    let mut bytes: Vec<u8> = Vec::new();
    let mut i: usize = 0;
    while i < chars.len()
        invariant
            chars@ == hex@,
            hex@.len() % 2 == 0,
            i % 2 == 0,
            i <= hex@.len(),
            hex_pairs(hex@.take(i as int)) == Some(bytes@),
        decreases hex@.len() - i,
    {
        proof {
            assert(hex@.take(i + 2).take(i as int) =~= hex@.take(i as int));
        }
        match hex_byte(chars[i], chars[i + 1]) {
            Some(byte) => {
                bytes.push(byte);
            },
            None => {
                proof {
                    lemma_hex_prefix_fails(hex@, i + 2);
                }
                return None;
            },
        }
        i += 2;
    }
    proof {
        assert(hex@.take(i as int) =~= hex@);
    }
    Some(bytes)
}

/// The JSON value that a text spells, directly or in hexadecimal.
pub open spec fn json_or_hex(text: Seq<char>) -> Option<JsonView> {
    match json_text(trimmed(text)) {
        Some(v) => Some(v),
        None => match hex_bytes(trimmed(text)) {
            Some(bytes) => if valid_utf8(bytes) {
                json_text(decode_utf8(bytes))
            } else {
                None
            },
            None => None,
        },
    }
}

/// Reads a text as JSON, or as JSON in hexadecimal.
pub fn parse_json_or_hex(text: &str) -> (json: Option<Json>)
    ensures
        opt_owned(json) == json_or_hex(text@),
{
    let inner = trim(text);
    match parse_json(inner) {
        Some(json) => Some(json),
        None => match hex_decode(inner) {
            Some(bytes) => match utf8_text(bytes.as_slice()) {
                Some(decoded) => parse_json(decoded),
                None => None,
            },
            None => None,
        },
    }
}

/// A text that spells JSON stands for that JSON; any other value for itself.
pub open spec fn coerced(v: JsonView) -> JsonView {
    match v {
        JsonView::Text(text) => match json_or_hex(text) {
            Some(inner) => inner,
            None => v,
        },
        _ => v,
    }
}

/// Reads a text that spells JSON; hands back any other value.
pub fn coerce_json_value(value: &Json) -> (json: Json)
    ensures
        json@ == coerced(value@),
{
    match value {
        Json::Text(text) => match parse_json_or_hex(text.as_str()) {
            Some(json) => json,
            None => value.duplicate(),
        },
        _ => value.duplicate(),
    }
}

/// The hexadecimal digit for a number below sixteen, in upper or in lower case.
pub open spec fn hex_char(n: nat, upper: bool) -> char {
    if n < 10 {
        (0x30 + n) as char
    } else if upper {
        (0x41 + n - 10) as char
    } else {
        (0x61 + n - 10) as char
    }
}

/// Bytes written in hexadecimal, in upper or in lower case.
pub open spec fn hex_text(bytes: Seq<u8>, upper: bool) -> Seq<char>
    decreases bytes.len(),
{
    if bytes.len() == 0 {
        Seq::empty()
    } else {
        hex_text(bytes.drop_last(), upper).push(hex_char(bytes.last() as nat / 16, upper)).push(
            hex_char(bytes.last() as nat % 16, upper),
        )
    }
}

/// Bytes written in hexadecimal, in upper or in lower case, are read back as
/// they were.
pub proof fn law_hex_reads_back(bytes: Seq<u8>, upper: bool)
    requires
        bytes.len() > 0,
    ensures
        hex_bytes(hex_text(bytes, upper)) == Some(bytes),
{
    lemma_hex_pairs_read_back(bytes, upper);
}

proof fn lemma_hex_pairs_read_back(bytes: Seq<u8>, upper: bool)
    ensures
        hex_pairs(hex_text(bytes, upper)) == Some(bytes),
        bytes.len() > 0 ==> hex_text(bytes, upper).len() > 0,
    decreases bytes.len(),
{
    if bytes.len() > 0 {
        let head = hex_text(bytes.drop_last(), upper);
        let s = hex_text(bytes, upper);
        lemma_hex_pairs_read_back(bytes.drop_last(), upper);
        assert(s.take(s.len() - 2) =~= head);
        assert(bytes.drop_last().push(bytes.last()) =~= bytes);
        let b = bytes.last() as nat;
        assert(b == 16 * (b / 16) + b % 16);
        assert(hex_digit(hex_char(b / 16, upper)) == Some(b / 16));
        assert(hex_digit(hex_char(b % 16, upper)) == Some(b % 16));
    }
}

proof fn lemma_hex_text_start(bytes: Seq<u8>, upper: bool)
    requires
        bytes.len() > 0,
    ensures
        hex_text(bytes, upper).len() > 0,
        hex_text(bytes, upper)[0] == hex_char(bytes[0] as nat / 16, upper),
    decreases bytes.len(),
{
    if bytes.len() > 1 {
        lemma_hex_text_start(bytes.drop_last(), upper);
    } else {
        assert(hex_text(bytes.drop_last(), upper) =~= Seq::empty());
    }
}

/// JSON in hexadecimal reads as the JSON that it encodes, unless the digits
/// happen to spell JSON themselves, as a number does.
pub proof fn law_hex_json_reads_back(text: Seq<char>, upper: bool)
    requires
        text.len() > 0,
        json_text(hex_text(encode_utf8(text), upper)) is None,
    ensures
        json_or_hex(hex_text(encode_utf8(text), upper)) == json_text(text),
{
    let bytes = encode_utf8(text);
    let hex = hex_text(bytes, upper);
    lemma_hex_text_start(bytes, upper);
    assert(!is_white(hex_char(bytes[0] as nat / 16, upper)));
    assert(!is_white(hex_char(bytes.last() as nat % 16, upper)));
    assert(hex.last() == hex_char(bytes.last() as nat % 16, upper));
    assert(trimmed(hex) == hex);
    law_hex_reads_back(bytes, upper);
    encode_utf8_valid_utf8(text);
    encode_utf8_decode_utf8(text);
}

} // verus!
