//! Character-level text operations: comparison, trimming, prefixes, splitting.

use vstd::prelude::*;
use vstd::utf8::*;

verus! {

/// The characters of `text`, in order.
pub fn chars_of(text: &str) -> (chars: Vec<char>)
    ensures
        chars@ == text@,
{
    let mut chars: Vec<char> = Vec::new();
    for c in it: text.chars()
        invariant
            chars@ == text@.take(it.index() as int),
            it.seq() == text@,
    {
        chars.push(c);
    }
    proof {
        assert(text@.take(text@.len() as int) =~= text@);
    }
    chars
}

/// Whether two texts hold the same characters.
pub fn text_eq(a: &str, b: &str) -> (same: bool)
    ensures
        same == (a@ == b@),
{
    let left = a.as_bytes();
    let right = b.as_bytes();
    if left.len() != right.len() {
        return false;
    }
    let mut i: usize = 0;
    while i < left.len()
        invariant
            left@ == encode_utf8(a@),
            right@ == encode_utf8(b@),
            left@.len() == right@.len(),
            i <= left@.len(),
            forall|j: int| 0 <= j < i ==> left@[j] == right@[j],
        decreases left@.len() - i,
    {
        if left[i] != right[i] {
            return false;
        }
        i += 1;
    }
    proof {
        assert(left@ =~= right@);
        encode_utf8_decode_utf8(a@);
        encode_utf8_decode_utf8(b@);
    }
    true
}

/// Whether a character has the Unicode property White_Space.
pub open spec fn is_white(c: char) -> bool {
    ||| 0x09 <= c as u32 <= 0x0d
    ||| c as u32 == 0x20
    ||| c as u32 == 0x85
    ||| c as u32 == 0xa0
    ||| c as u32 == 0x1680
    ||| 0x2000 <= c as u32 <= 0x200a
    ||| c as u32 == 0x2028
    ||| c as u32 == 0x2029
    ||| c as u32 == 0x202f
    ||| c as u32 == 0x205f
    ||| c as u32 == 0x3000
}

fn white(c: char) -> (yes: bool)
    ensures
        yes == is_white(c),
{
    let u: u32 = c as u32;
    (0x09 <= u && u <= 0x0d) || u == 0x20 || u == 0x85 || u == 0xa0 || u == 0x1680 || (0x2000 <= u
        && u <= 0x200a) || u == 0x2028 || u == 0x2029 || u == 0x202f || u == 0x205f || u == 0x3000
}

/// A text without its leading and trailing white space.
pub open spec fn trimmed(s: Seq<char>) -> Seq<char>
    decreases s.len(),
{
    if s.len() == 0 {
        s
    } else if is_white(s[0]) {
        trimmed(s.skip(1))
    } else if is_white(s.last()) {
        trimmed(s.drop_last())
    } else {
        s
    }
}

/// Drops leading and trailing white space.
pub fn trim<'a>(text: &'a str) -> (inner: &'a str)
    ensures
        inner@ == trimmed(text@),
{
    let chars = chars_of(text);
    let mut start: usize = 0;
    let mut end: usize = chars.len();
    proof {
        assert(text@.subrange(0, end as int) =~= text@);
    }
    while start < end && white(chars[start])
        invariant
            chars@ == text@,
            start <= end == text@.len(),
            trimmed(text@) == trimmed(text@.subrange(start as int, end as int)),
        decreases end - start,
    {
        proof {
            assert(text@.subrange(start as int, end as int).skip(1) =~= text@.subrange(
                start + 1,
                end as int,
            ));
        }
        start += 1;
    }
    while start < end && white(chars[end - 1])
        invariant
            chars@ == text@,
            start <= end <= text@.len(),
            start < end ==> !is_white(text@[start as int]),
            trimmed(text@) == trimmed(text@.subrange(start as int, end as int)),
        decreases end - start,
    {
        proof {
            assert(text@.subrange(start as int, end as int).drop_last() =~= text@.subrange(
                start as int,
                end - 1,
            ));
        }
        end -= 1;
    }
    text.substring_char(start, end)
}

/// What follows `prefix` in `text`, if `text` starts with it.
pub open spec fn without_prefix(text: Seq<char>, prefix: Seq<char>) -> Option<Seq<char>> {
    if prefix.is_prefix_of(text) {
        Some(text.skip(prefix.len() as int))
    } else {
        None
    }
}

/// What stands before `suffix` in `text`, if `text` ends with it.
pub open spec fn without_suffix(text: Seq<char>, suffix: Seq<char>) -> Option<Seq<char>> {
    if suffix.is_suffix_of(text) {
        Some(text.take(text.len() - suffix.len()))
    } else {
        None
    }
}

/// The characters of a text that may be absent.
pub open spec fn opt_view(text: Option<&str>) -> Option<Seq<char>> {
    match text {
        Some(t) => Some(t@),
        None => None,
    }
}

/// The characters of an owned text that may be absent.
pub open spec fn opt_text(text: Option<String>) -> Option<Seq<char>> {
    match text {
        Some(t) => Some(t@),
        None => None,
    }
}

/// The characters of each text of a list.
pub open spec fn texts(list: Seq<String>) -> Seq<Seq<char>> {
    Seq::new(list.len(), |i: int| list[i]@)
}

/// Whether `part` stands in `whole` at `at`.
fn stands_at(whole: &Vec<char>, part: &Vec<char>, at: usize) -> (yes: bool)
    requires
        at + part@.len() <= whole@.len(),
    ensures
        yes == (whole@.subrange(at as int, at + part@.len()) == part@),
{
    let total: usize = whole.len();
    let mut i: usize = 0;
    while i < part.len()
        invariant
            i <= part@.len(),
            at + part@.len() <= whole@.len() == total,
            forall|j: int| 0 <= j < i ==> whole@[at + j] == part@[j],
        decreases part@.len() - i,
    {
        if whole[at + i] != part[i] {
            proof {
                assert(whole@.subrange(at as int, at + part@.len())[i as int] != part@[i as int]);
            }
            return false;
        }
        i += 1;
    }
    proof {
        assert(whole@.subrange(at as int, at + part@.len()) =~= part@);
    }
    true
}

/// What follows `prefix` in `text`, if `text` starts with it.
pub fn strip_prefix<'a>(text: &'a str, prefix: &str) -> (rest: Option<&'a str>)
    ensures
        opt_view(rest) == without_prefix(text@, prefix@),
{
    let whole = chars_of(text);
    let part = chars_of(prefix);
    if part.len() <= whole.len() && stands_at(&whole, &part, 0) {
        let rest = text.substring_char(part.len(), whole.len());
        proof {
            assert(text@.subrange(part@.len() as int, whole@.len() as int) =~= text@.skip(
                part@.len() as int,
            ));
        }
        Some(rest)
    } else {
        None
    }
}

/// What stands before `suffix` in `text`, if `text` ends with it.
pub fn strip_suffix<'a>(text: &'a str, suffix: &str) -> (rest: Option<&'a str>)
    ensures
        opt_view(rest) == without_suffix(text@, suffix@),
{
    let whole = chars_of(text);
    let part = chars_of(suffix);
    if part.len() <= whole.len() && stands_at(&whole, &part, whole.len() - part.len()) {
        let rest = text.substring_char(0, whole.len() - part.len());
        proof {
            assert(text@.subrange(0, whole@.len() - part@.len()) =~= text@.take(
                whole@.len() - part@.len(),
            ));
        }
        Some(rest)
    } else {
        None
    }
}

/// The pieces between the occurrences of `separator`.
pub open spec fn pieces(s: Seq<char>, separator: char) -> Seq<Seq<char>>
    decreases s.len(),
{
    if s.len() == 0 {
        seq![Seq::empty()]
    } else {
        let before = pieces(s.drop_last(), separator);
        if s.last() == separator {
            before.push(Seq::empty())
        } else {
            before.drop_last().push(before.last().push(s.last()))
        }
    }
}

/// The pieces of two texts with a separator between them are the pieces of the
/// one and then those of the other.
pub proof fn law_pieces_of_joined_text(a: Seq<char>, b: Seq<char>, separator: char)
    ensures
        pieces(a, separator).len() > 0,
        pieces(b, separator).len() > 0,
        pieces(a.push(separator) + b, separator) == pieces(a, separator) + pieces(b, separator),
    decreases a.len() + b.len(),
{
    let joined = a.push(separator) + b;
    if b.len() == 0 {
        if a.len() > 0 {
            law_pieces_of_joined_text(a.drop_last(), b, separator);
        }
        assert(joined =~= a.push(separator));
        assert(joined.drop_last() =~= a);
        assert(pieces(joined, separator) =~= pieces(a, separator) + pieces(b, separator));
    } else {
        let rest = b.drop_last();
        law_pieces_of_joined_text(a, rest, separator);
        assert(joined.drop_last() =~= a.push(separator) + rest);
        assert(joined.last() == b.last());
        assert(pieces(joined, separator) =~= pieces(a, separator) + pieces(b, separator));
    }
}

/// Splits a text at every occurrence of `separator`.
pub fn split_on(text: &str, separator: char) -> (parts: Vec<String>)
    ensures
        texts(parts@) == pieces(text@, separator),
{
    let chars = chars_of(text);
    let mut parts: Vec<String> = Vec::new();
    let mut start: usize = 0;
    let mut i: usize = 0;
    proof {
        assert(text@.take(0) =~= Seq::<char>::empty());
        assert(text@.subrange(0, 0) =~= Seq::<char>::empty());
        assert(texts(parts@).push(text@.subrange(0, 0)) =~= seq![Seq::<char>::empty()]);
    }
    while i < chars.len()
        invariant
            chars@ == text@,
            start <= i <= text@.len(),
            texts(parts@).push(text@.subrange(start as int, i as int)) == pieces(
                text@.take(i as int),
                separator,
            ),
        decreases text@.len() - i,
    {
        let ghost before = pieces(text@.take(i as int), separator);
        proof {
            assert(text@.take(i + 1).drop_last() =~= text@.take(i as int));
            assert(text@.take(i + 1).last() == text@[i as int]);
            assert(before.last() == text@.subrange(start as int, i as int));
            assert(before.drop_last() =~= texts(parts@));
        }
        if chars[i] == separator {
            let ghost earlier = texts(parts@);
            parts.push(text.substring_char(start, i).to_owned());
            start = i + 1;
            proof {
                assert(texts(parts@) =~= before);
                assert(text@.subrange(i + 1, i + 1) =~= Seq::<char>::empty());
            }
        } else {
            proof {
                assert(text@.subrange(start as int, i + 1) =~= text@.subrange(
                    start as int,
                    i as int,
                ).push(text@[i as int]));
            }
        }
        i += 1;
    }
    let ghost before = texts(parts@);
    parts.push(text.substring_char(start, i).to_owned());
    proof {
        assert(text@.take(i as int) =~= text@);
        assert(texts(parts@) =~= before.push(text@.subrange(start as int, i as int)));
    }
    parts
}

/// The decimal digit for a number below ten.
pub open spec fn digit(n: nat) -> char {
    (('0' as u32) + n) as char
}

/// A number in decimal.
pub open spec fn decimal(n: nat) -> Seq<char>
    decreases n,
{
    if n < 10 {
        seq![digit(n)]
    } else {
        decimal(n / 10).push(digit(n % 10))
    }
}

fn digit_text(n: u64) -> (text: &'static str)
    requires
        n < 10,
    ensures
        text@ == seq![digit(n as nat)],
{
    proof {
        reveal_strlit("0");
        reveal_strlit("1");
        reveal_strlit("2");
        reveal_strlit("3");
        reveal_strlit("4");
        reveal_strlit("5");
        reveal_strlit("6");
        reveal_strlit("7");
        reveal_strlit("8");
        reveal_strlit("9");
    }
    if n == 0 {
        "0"
    } else if n == 1 {
        "1"
    } else if n == 2 {
        "2"
    } else if n == 3 {
        "3"
    } else if n == 4 {
        "4"
    } else if n == 5 {
        "5"
    } else if n == 6 {
        "6"
    } else if n == 7 {
        "7"
    } else if n == 8 {
        "8"
    } else {
        "9"
    }
}

/// Writes a number in decimal.
pub fn decimal_text(n: u64) -> (text: String)
    ensures
        text@ == decimal(n as nat),
    decreases n,
{
    if n < 10 {
        digit_text(n).to_owned()
    } else {
        let mut text = decimal_text(n / 10);
        text.append(digit_text(n % 10));
        text
    }
}

} // verus!
