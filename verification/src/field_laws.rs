//! Laws of reading the fields of JSON objects: which member a name finds, which
//! of several names counts, and what a number or a text stands for.

use vstd::arithmetic::div_mod::*;
use vstd::arithmetic::mul::*;
use vstd::arithmetic::power2::*;
use vstd::prelude::*;

use crate::clock::instant_text;
use crate::json::{amount_at, count_at, member, member_among, text_at, JsonView};
use crate::number::{
    count_of, double_finite, double_negative, double_scale, double_significand, excess_bits,
    instant_of, round_half_even, Number,
};
use crate::parser::{instant_at, model_names, recorded_instant};
use crate::text::{decimal, is_white, pieces, trimmed};

verus! {

/// A name finds the value of the last member of that name, and nothing where no
/// member has that name.
pub proof fn law_member_is_the_last_of_its_name(
    members: Seq<(Seq<char>, JsonView)>,
    key: Seq<char>,
)
    ensures
        match member(JsonView::Object(members), key) {
            Some(value) => exists|i: int|
                0 <= i < members.len() && #[trigger] members[i] == (key, value) && forall|j: int|
                    i < j < members.len() ==> (#[trigger] members[j]).0 != key,
            None => forall|i: int| 0 <= i < members.len() ==> (#[trigger] members[i]).0 != key,
        },
    decreases members.len(),
{
    if members.len() > 0 {
        let rest = members.drop_last();
        law_member_is_the_last_of_its_name(rest, key);
        if members.last().0 == key {
            assert(members[members.len() - 1] == (key, members.last().1));
        } else {
            match member_among(rest, key) {
                Some(value) => {
                    let i = choose|i: int|
                        0 <= i < rest.len() && #[trigger] rest[i] == (key, value) && forall|j: int|
                            i < j < rest.len() ==> (#[trigger] rest[j]).0 != key;
                    assert(members[i] == (key, value));
                    assert forall|j: int| i < j < members.len() implies (
                    #[trigger] members[j]).0 != key by {
                        if j < rest.len() {
                            assert(rest[j].0 != key);
                        }
                    }
                },
                None => {
                    assert forall|j: int| 0 <= j < members.len() implies (
                    #[trigger] members[j]).0 != key by {
                        if j < rest.len() {
                            assert(rest[j].0 != key);
                        }
                    }
                },
            }
        }
    }
}

/// Only objects have members.
pub proof fn law_only_objects_have_members(v: JsonView, key: Seq<char>)
    requires
        !(v is Object),
    ensures
        member(v, key) is None,
{
}

/// Whether only white space stands in a text outside of `a..b`, and none at the
/// ends of that range.
pub open spec fn is_core(s: Seq<char>, a: int, b: int) -> bool {
    &&& 0 <= a <= b <= s.len()
    &&& forall|i: int| 0 <= i < a ==> is_white(#[trigger] s[i])
    &&& forall|i: int| b <= i < s.len() ==> is_white(#[trigger] s[i])
    &&& a < b ==> !is_white(s[a]) && !is_white(s[b - 1])
}

proof fn lemma_core_of_text(s: Seq<char>) -> (range: (int, int))
    ensures
        is_core(s, range.0, range.1),
        trimmed(s) == s.subrange(range.0, range.1),
    decreases s.len(),
{
    if s.len() == 0 {
        assert(s.subrange(0, 0) =~= s);
        (0, 0)
    } else if is_white(s[0]) {
        let t = s.skip(1);
        let (a, b) = lemma_core_of_text(t);
        assert(s.subrange(a + 1, b + 1) =~= t.subrange(a, b));
        assert forall|i: int| 0 <= i < a + 1 implies is_white(#[trigger] s[i]) by {
            if i > 0 {
                assert(is_white(t[i - 1]));
            }
        }
        assert forall|i: int| b + 1 <= i < s.len() implies is_white(#[trigger] s[i]) by {
            assert(is_white(t[i - 1]));
        }
        (a + 1, b + 1)
    } else if is_white(s.last()) {
        let t = s.drop_last();
        let (a, b) = lemma_core_of_text(t);
        assert(s.subrange(a, b) =~= t.subrange(a, b));
        assert forall|i: int| 0 <= i < a implies is_white(#[trigger] s[i]) by {
            assert(is_white(t[i]));
        }
        assert forall|i: int| b <= i < s.len() implies is_white(#[trigger] s[i]) by {
            if i < t.len() {
                assert(is_white(t[i]));
            }
        }
        (a, b)
    } else {
        assert(s.subrange(0, s.len() as int) =~= s);
        (0, s.len() as int)
    }
}

/// Trimming takes white space away at both ends and nothing else: what is left
/// stands in the text, only white space stands around it, and it neither starts
/// nor ends with white space.
pub proof fn law_trimming_takes_only_white_space(s: Seq<char>)
    ensures
        exists|a: int, b: int| #[trigger]
            is_core(s, a, b) && trimmed(s) == s.subrange(a, b),
{
    let (a, b) = lemma_core_of_text(s);
    assert(is_core(s, a, b));
}

/// Among the characters of ASCII the space and the controls from tab to
/// carriage return are white space, and no others.
pub proof fn law_white_space_of_ascii(c: char)
    requires
        c as u32 <= 0x7f,
    ensures
        is_white(c) <==> c == ' ' || c == '\t' || c == '\n' || c == '\r' || c as u32 == 0x0b
            || c as u32 == 0x0c,
{
}

/// Beyond ASCII a character is white space exactly where Unicode says so.
pub proof fn law_white_space_beyond_ascii(c: char)
    requires
        c as u32 > 0x7f,
    ensures
        is_white(c) <==> seq![
            0x85u32,
            0xa0u32,
            0x1680u32,
            0x2000u32,
            0x2001u32,
            0x2002u32,
            0x2003u32,
            0x2004u32,
            0x2005u32,
            0x2006u32,
            0x2007u32,
            0x2008u32,
            0x2009u32,
            0x200au32,
            0x2028u32,
            0x2029u32,
            0x202fu32,
            0x205fu32,
            0x3000u32,
        ].contains(c as u32),
{
    let list = seq![
        0x85u32,
        0xa0u32,
        0x1680u32,
        0x2000u32,
        0x2001u32,
        0x2002u32,
        0x2003u32,
        0x2004u32,
        0x2005u32,
        0x2006u32,
        0x2007u32,
        0x2008u32,
        0x2009u32,
        0x200au32,
        0x2028u32,
        0x2029u32,
        0x202fu32,
        0x205fu32,
        0x3000u32,
    ];
    let u = c as u32;
    if is_white(c) {
        if u == 0x85 {
            assert(list[0] == u);
        } else if u == 0xa0 {
            assert(list[1] == u);
        } else if u == 0x1680 {
            assert(list[2] == u);
        } else if u <= 0x200a {
            assert(list[u - 0x2000 + 3] == u);
        } else if u == 0x2028 {
            assert(list[14] == u);
        } else if u == 0x2029 {
            assert(list[15] == u);
        } else if u == 0x202f {
            assert(list[16] == u);
        } else if u == 0x205f {
            assert(list[17] == u);
        } else {
            assert(list[18] == u);
        }
    }
}

/// Whether a member is no text, or a text of white space alone.
pub open spec fn is_blank(found: Option<JsonView>) -> bool {
    found matches Some(JsonView::Text(raw)) ==> trimmed(raw).len() == 0
}

/// Of several names the first whose member is a text that is not blank counts;
/// its text is read without surrounding white space.
pub proof fn law_first_text_counts(v: JsonView, keys: Seq<Seq<char>>)
    ensures
        match text_at(v, keys) {
            Some(text) => exists|k: int|
                0 <= k < keys.len() && (member(v, #[trigger] keys[k]) matches Some(
                    JsonView::Text(raw),
                ) && text == trimmed(raw) && text.len() > 0) && forall|j: int|
                    0 <= j < k ==> is_blank(member(v, #[trigger] keys[j])),
            None => forall|j: int| 0 <= j < keys.len() ==> is_blank(member(v, #[trigger] keys[j])),
        },
    decreases keys.len(),
{
    if keys.len() > 0 {
        let rest = keys.skip(1);
        law_first_text_counts(v, rest);
        if is_blank(member(v, keys[0])) {
            assert(text_at(v, keys) == text_at(v, rest));
            match text_at(v, rest) {
                Some(text) => {
                    let k = choose|k: int|
                        0 <= k < rest.len() && (member(v, #[trigger] rest[k]) matches Some(
                            JsonView::Text(raw),
                        ) && text == trimmed(raw) && text.len() > 0) && forall|j: int|
                            0 <= j < k ==> is_blank(member(v, #[trigger] rest[j]));
                    assert(keys[k + 1] == rest[k]);
                    assert forall|j: int| 0 <= j < k + 1 implies is_blank(
                        member(v, #[trigger] keys[j]),
                    ) by {
                        if j > 0 {
                            assert(rest[j - 1] == keys[j]);
                        }
                    }
                },
                None => {
                    assert forall|j: int| 0 <= j < keys.len() implies is_blank(
                        member(v, #[trigger] keys[j]),
                    ) by {
                        if j > 0 {
                            assert(rest[j - 1] == keys[j]);
                        }
                    }
                },
            }
        }
    }
}

/// Of several names the first whose member is a number that is a count counts.
pub proof fn law_first_count_counts(v: JsonView, keys: Seq<Seq<char>>)
    ensures
        match count_at(v, keys) {
            Some(count) => exists|k: int|
                0 <= k < keys.len() && (member(v, #[trigger] keys[k]) matches Some(
                    JsonView::Number(n),
                ) && count_of(n) == Some(count)) && forall|j: int|
                    0 <= j < k ==> (member(v, #[trigger] keys[j]) matches Some(
                        JsonView::Number(n),
                    ) ==> count_of(n) is None),
            None => forall|j: int|
                0 <= j < keys.len() ==> (member(v, #[trigger] keys[j]) matches Some(
                    JsonView::Number(n),
                ) ==> count_of(n) is None),
        },
    decreases keys.len(),
{
    if keys.len() > 0 {
        let rest = keys.skip(1);
        law_first_count_counts(v, rest);
        let own = member(v, keys[0]) matches Some(JsonView::Number(n)) && count_of(n) is Some;
        if !own {
            assert(count_at(v, keys) == count_at(v, rest));
            match count_at(v, rest) {
                Some(count) => {
                    let k = choose|k: int|
                        0 <= k < rest.len() && (member(v, #[trigger] rest[k]) matches Some(
                            JsonView::Number(n),
                        ) && count_of(n) == Some(count)) && forall|j: int|
                            0 <= j < k ==> (member(v, #[trigger] rest[j]) matches Some(
                                JsonView::Number(n),
                            ) ==> count_of(n) is None);
                    assert(keys[k + 1] == rest[k]);
                    assert forall|j: int| 0 <= j < k + 1 implies (member(
                        v,
                        #[trigger] keys[j],
                    ) matches Some(JsonView::Number(n)) ==> count_of(n) is None) by {
                        if j > 0 {
                            assert(rest[j - 1] == keys[j]);
                        }
                    }
                },
                None => {
                    assert forall|j: int| 0 <= j < keys.len() implies (member(
                        v,
                        #[trigger] keys[j],
                    ) matches Some(JsonView::Number(n)) ==> count_of(n) is None) by {
                        if j > 0 {
                            assert(rest[j - 1] == keys[j]);
                        }
                    }
                },
            }
        }
    }
}

/// Whether a member is a number other than an infinite double or a NaN.
pub open spec fn is_finite_number(found: Option<JsonView>) -> bool {
    found matches Some(JsonView::Number(n)) && (n matches Number::Float(bits) ==> double_finite(
        bits,
    ))
}

/// Of several names the first whose member is a finite number gives the amount,
/// as it stands.
pub proof fn law_first_amount_counts(v: JsonView, keys: Seq<Seq<char>>)
    ensures
        match amount_at(v, keys) {
            Some(amount) => exists|k: int|
                0 <= k < keys.len() && member(v, #[trigger] keys[k]) == Some(
                    JsonView::Number(amount),
                ) && is_finite_number(member(v, keys[k])) && forall|j: int|
                    0 <= j < k ==> !is_finite_number(member(v, #[trigger] keys[j])),
            None => forall|j: int|
                0 <= j < keys.len() ==> !is_finite_number(member(v, #[trigger] keys[j])),
        },
    decreases keys.len(),
{
    if keys.len() > 0 {
        let rest = keys.skip(1);
        law_first_amount_counts(v, rest);
        if !is_finite_number(member(v, keys[0])) {
            assert(amount_at(v, keys) == amount_at(v, rest));
            match amount_at(v, rest) {
                Some(amount) => {
                    let k = choose|k: int|
                        0 <= k < rest.len() && member(v, #[trigger] rest[k]) == Some(
                            JsonView::Number(amount),
                        ) && is_finite_number(member(v, rest[k])) && forall|j: int|
                            0 <= j < k ==> !is_finite_number(member(v, #[trigger] rest[j]));
                    assert(keys[k + 1] == rest[k]);
                    assert forall|j: int| 0 <= j < k + 1 implies !is_finite_number(
                        member(v, #[trigger] keys[j]),
                    ) by {
                        if j > 0 {
                            assert(rest[j - 1] == keys[j]);
                        }
                    }
                },
                None => {
                    assert forall|j: int| 0 <= j < keys.len() implies !is_finite_number(
                        member(v, #[trigger] keys[j]),
                    ) by {
                        if j > 0 {
                            assert(rest[j - 1] == keys[j]);
                        }
                    }
                },
            }
        }
    }
}

/// Whether a member spells that instant: as a number of seconds or milliseconds,
/// or as a text with a date and time.
pub open spec fn spells_instant(found: Option<JsonView>, instant: i64) -> bool {
    ||| found matches Some(JsonView::Number(n)) && instant_of(n) == Some(instant)
    ||| found matches Some(JsonView::Text(text)) && instant_text(text) == Some(instant)
}

proof fn lemma_first_instant_counts(v: JsonView, keys: Seq<Seq<char>>)
    ensures
        match instant_at(v, keys) {
            Some(instant) => exists|k: int|
                0 <= k < keys.len() && spells_instant(member(v, #[trigger] keys[k]), instant)
                    && forall|j: int, other: i64|
                    0 <= j < k ==> !#[trigger] spells_instant(member(v, keys[j]), other),
            None => forall|j: int, other: i64|
                0 <= j < keys.len() ==> !#[trigger] spells_instant(member(v, keys[j]), other),
        },
    decreases keys.len(),
{
    if keys.len() > 0 {
        let rest = keys.skip(1);
        lemma_first_instant_counts(v, rest);
        let own = exists|other: i64| spells_instant(member(v, keys[0]), other);
        if own {
            let instant = choose|other: i64| spells_instant(member(v, keys[0]), other);
            assert(instant_at(v, keys) == Some(instant));
        } else {
            assert(instant_at(v, keys) == instant_at(v, rest)) by {
                match crate::parser::instant_in(member(v, keys[0])) {
                    Some(other) => {
                        assert(spells_instant(member(v, keys[0]), other));
                    },
                    None => {},
                }
            }
            match instant_at(v, rest) {
                Some(instant) => {
                    let k = choose|k: int|
                        0 <= k < rest.len() && spells_instant(
                            member(v, #[trigger] rest[k]),
                            instant,
                        ) && forall|j: int, other: i64|
                            0 <= j < k ==> !#[trigger] spells_instant(member(v, rest[j]), other);
                    assert(keys[k + 1] == rest[k]);
                    assert forall|j: int, other: i64|
                        0 <= j < k + 1 implies !#[trigger] spells_instant(
                        member(v, keys[j]),
                        other,
                    ) by {
                        if j > 0 {
                            assert(rest[j - 1] == keys[j]);
                            assert(!spells_instant(member(v, rest[j - 1]), other));
                        }
                    }
                },
                None => {
                    assert forall|j: int, other: i64|
                        0 <= j < keys.len() implies !#[trigger] spells_instant(
                        member(v, keys[j]),
                        other,
                    ) by {
                        if j > 0 {
                            assert(rest[j - 1] == keys[j]);
                            assert(!spells_instant(member(v, rest[j - 1]), other));
                        }
                    }
                },
            }
        }
    }
}

/// The instant that an object records stands under the first of the ten names
/// for an instant whose member spells one: when it was, else when it started,
/// was created, ended or was updated.
pub proof fn law_first_instant_counts(v: JsonView)
    ensures
        ({
            let keys = seq![
                "timestamp"@,
                "timestamp_ms"@,
                "startedAt"@,
                "started_at"@,
                "createdAt"@,
                "created_at"@,
                "endedAt"@,
                "ended_at"@,
                "updatedAt"@,
                "updated_at"@,
            ];
            match recorded_instant(v) {
                Some(instant) => exists|k: int|
                    0 <= k < 10 && spells_instant(member(v, #[trigger] keys[k]), instant)
                        && forall|j: int, other: i64|
                        0 <= j < k ==> !#[trigger] spells_instant(member(v, keys[j]), other),
                None => forall|j: int, other: i64|
                    0 <= j < 10 ==> !#[trigger] spells_instant(member(v, keys[j]), other),
            }
        }),
{
    let keys = seq![
        "timestamp"@,
        "timestamp_ms"@,
        "startedAt"@,
        "started_at"@,
        "createdAt"@,
        "created_at"@,
        "endedAt"@,
        "ended_at"@,
        "updatedAt"@,
        "updated_at"@,
    ];
    assert(crate::parser::instant_keys() =~= keys);
    lemma_first_instant_counts(v, keys);
}

/// A model is named by a text, or named and identified by the `id` of an
/// object, in each case without surrounding white space and unless it is blank.
/// Nothing else names a model.
pub proof fn law_models_are_texts_or_objects(found: Option<JsonView>)
    ensures
        match found {
            Some(JsonView::Text(raw)) => {
                &&& trimmed(raw).len() > 0 ==> model_names(found).0 == Some(trimmed(raw))
                &&& trimmed(raw).len() == 0 ==> model_names(found).0 is None
                &&& model_names(found).1 is None
            },
            Some(JsonView::Object(members)) => {
                &&& is_blank(member(found->Some_0, "id"@)) ==> model_names(found).0 is None
                &&& member(found->Some_0, "id"@) matches Some(JsonView::Text(raw)) ==> (trimmed(
                    raw,
                ).len() > 0 ==> model_names(found).0 == Some(trimmed(raw)))
                &&& model_names(found).1 == model_names(found).0
            },
            _ => model_names(found).0 is None && model_names(found).1 is None,
        },
{
}

/// Non-negative integers are counts as they stand, negative integers count
/// nothing.
pub proof fn law_integers_are_counts(number: Number)
    ensures
        number matches Number::PosInt(n) ==> count_of(number) == Some(n),
        number matches Number::NegInt(n) ==> (n <= 0 ==> count_of(number) == Some(0u64)) && (n > 0
            ==> count_of(number) == Some(n as u64)),
{
}

/// The bits of a double are its sign, its exponent and its fraction: its value
/// is the fraction, with the hidden bit unless the exponent is zero, scaled by
/// the power of two that the exponent tells. The greatest exponent is kept for
/// what is not finite.
pub proof fn law_doubles_are_read_by_their_bits(
    bits: u64,
    negative: bool,
    exponent: int,
    fraction: int,
)
    requires
        0 <= exponent < 0x800,
        0 <= fraction < 0x10_0000_0000_0000,
        bits == (if negative {
            0x8000_0000_0000_0000int
        } else {
            0
        }) + exponent * 0x10_0000_0000_0000 + fraction,
    ensures
        double_negative(bits) == negative,
        double_finite(bits) <==> exponent != 0x7ff,
        exponent == 0 ==> double_significand(bits) == fraction && double_scale(bits) == -1074,
        exponent > 0 ==> double_significand(bits) == 0x10_0000_0000_0000 + fraction
            && double_scale(bits) == exponent - 1075,
{
}

/// A double of zero or more counts its whole part, at most the largest count.
/// A double below zero, or one that is not finite, is no count.
pub proof fn law_doubles_count_their_whole_part(bits: u64)
    ensures
        ({
            let n = Number::Float(bits);
            let m = double_significand(bits) as int;
            let scale = double_scale(bits);
            &&& !double_finite(bits) ==> count_of(n) is None
            &&& double_negative(bits) && m > 0 ==> count_of(n) is None
            &&& double_finite(bits) && (m == 0 || !double_negative(bits)) ==> count_of(n) is Some
            &&& double_finite(bits) && !double_negative(bits) && scale < 0 ==> (count_of(n)->0
                as int) * pow2((-scale) as nat) <= m < (count_of(n)->0 + 1) * pow2(
                (-scale) as nat,
            )
            &&& double_finite(bits) && !double_negative(bits) && scale >= 0 && m * pow2(
                scale as nat,
            ) <= u64::MAX ==> count_of(n)->0 == m * pow2(scale as nat)
            &&& double_finite(bits) && !double_negative(bits) && scale >= 0 && m * pow2(
                scale as nat,
            ) > u64::MAX ==> count_of(n)->0 == u64::MAX
        }),
{
    let m = double_significand(bits) as int;
    let scale = double_scale(bits);
    if scale < 0 {
        let d = pow2((-scale) as nat) as int;
        lemma_pow2_pos((-scale) as nat);
        lemma_fundamental_div_mod(m, d);
        lemma_mod_bound(m, d);
        lemma_div_pos_is_pos(m, d);
        lemma_div_is_ordered_by_denominator(m, 1, d);
        lemma_div_basics(m);
        let q = m / d;
        assert(d * q == q * d) by (nonlinear_arith);
        assert((q + 1) * d == q * d + d) by (nonlinear_arith);
    }
}

/// Whole numbers up to a billion, and numbers that are not positive, are no
/// instants.
pub proof fn law_small_numbers_are_no_instants(number: Number)
    requires
        match number {
            Number::PosInt(n) => n <= 1_000_000_000,
            Number::NegInt(n) => n <= 1_000_000_000,
            Number::Float(bits) => !double_finite(bits) || double_negative(bits),
        },
    ensures
        instant_of(number) is None,
{
    match number {
        Number::PosInt(n) => {
            lemma_small_integer(n as nat);
        },
        Number::NegInt(n) => {
            if n > 0 {
                lemma_small_integer(n as nat);
            }
        },
        Number::Float(bits) => {},
    }
}

proof fn lemma_small_integer(n: nat)
    requires
        n <= 1_000_000_000,
    ensures
        crate::number::instant_of_integer(n) is None,
{
    lemma2_to64();
    lemma_mul_basics(n as int);
    lemma_div_basics(n as int);
    assert(crate::number::excess_bits(n) == 0);
    assert(crate::number::round_half_even(n, pow2(0)) == n);
}

/// A double above 10^12 is a number of milliseconds; its whole part is the
/// instant, at most the largest.
pub proof fn law_doubles_above_a_trillion_are_millis(bits: u64)
    requires
        double_finite(bits),
        !double_negative(bits),
    ensures
        ({
            let n = Number::Float(bits);
            let m = double_significand(bits) as int;
            let scale = double_scale(bits);
            &&& scale < 0 && m > 1_000_000_000_000 * pow2((-scale) as nat) ==> instant_of(
                n,
            ) is Some && (instant_of(n)->0 as int) * pow2((-scale) as nat) <= m < (instant_of(n)->0
                + 1) * pow2((-scale) as nat)
            &&& scale >= 0 && m * pow2(scale as nat) > 1_000_000_000_000 ==> instant_of(n) == Some(
                if m * pow2(scale as nat) <= i64::MAX {
                    (m * pow2(scale as nat)) as i64
                } else {
                    i64::MAX
                },
            )
        }),
{
    let m = double_significand(bits) as int;
    let scale = double_scale(bits);
    if scale < 0 {
        let d = pow2((-scale) as nat) as int;
        lemma_pow2_pos((-scale) as nat);
        lemma_fundamental_div_mod(m, d);
        lemma_mod_bound(m, d);
        lemma_div_pos_is_pos(m, d);
        lemma_div_is_ordered_by_denominator(m, 1, d);
        lemma_div_basics(m);
        let q = m / d;
        assert(d * q == q * d) by (nonlinear_arith);
        assert((q + 1) * d == q * d + d) by (nonlinear_arith);
    }
}

/// A double of a billion or less is no instant.
pub proof fn law_doubles_up_to_a_billion_are_no_instants(bits: u64)
    requires
        ({
            let m = double_significand(bits) as int;
            let scale = double_scale(bits);
            &&& scale < 0 ==> m <= 1_000_000_000 * pow2((-scale) as nat)
            &&& scale >= 0 ==> m * pow2(scale as nat) <= 1_000_000_000
        }),
    ensures
        instant_of(Number::Float(bits)) is None,
{
    let scale = double_scale(bits);
    if scale < 0 {
        let d = pow2((-scale) as nat) as int;
        lemma_pow2_pos((-scale) as nat);
        assert(1_000_000_000 * d <= 1_000_000_000_000 * d) by (nonlinear_arith)
            requires
                d > 0,
        ;
    }
}

proof fn lemma_rounding(n: nat, shift: nat)
    ensures
        ({
            let d = pow2(shift) as int;
            let r = round_half_even(n, pow2(shift)) as int;
            &&& d > 0
            &&& 2 * (r * d - n) <= d
            &&& 2 * (n - r * d) <= d
        }),
{
    let d = pow2(shift) as int;
    lemma_pow2_pos(shift);
    let q = n as int / d;
    let rest = n as int % d;
    lemma_fundamental_div_mod(n as int, d);
    lemma_mod_bound(n as int, d);
    assert(n == q * d + rest) by {
        assert(d * q == q * d) by (nonlinear_arith);
    }
    assert((q + 1) * d == q * d + d) by (nonlinear_arith);
}

/// A double above 10^9 and up to 10^12 is a number of seconds: its instant is a
/// thousand times that in milliseconds, but for what rounding takes or adds
/// below the next millisecond. Fractions of a second are kept.
pub proof fn law_doubles_above_a_billion_are_seconds(bits: u64)
    requires
        double_finite(bits),
        !double_negative(bits),
        double_scale(bits) < 0,
        double_significand(bits) > 1_000_000_000 * pow2((-double_scale(bits)) as nat),
        double_significand(bits) <= 1_000_000_000_000 * pow2((-double_scale(bits)) as nat),
    ensures
        ({
            let instant = instant_of(Number::Float(bits));
            let unit = pow2((-double_scale(bits)) as nat) as int;
            let thousandfold = 1000 * double_significand(bits) as int;
            &&& instant is Some
            &&& (instant->0 - 1) * unit <= thousandfold
            &&& thousandfold <= (instant->0 + 2) * unit
        }),
{
    let m = double_significand(bits) as nat;
    let scale = double_scale(bits);
    let k = (-scale) as nat;
    let unit = pow2(k) as int;
    lemma2_to64();
    lemma2_to64_rest();
    if k > 24 {
        lemma_pow2_strictly_increases(24, k);
    }
    assert(k <= 23) by {
        if k >= 24 {
            assert(pow2(k) >= 0x100_0000);
        }
    }
    assert(k >= 13) by {
        if k < 13 {
            lemma_pow2_strictly_increases(k, 13);
            assert(m >= 0x10_0000_0000_0000);
            if k < 12 {
                lemma_pow2_strictly_increases(k, 12);
            }
            assert(pow2(k) <= 4096);
        }
    }
    let n = 1000 * m;
    let shift = excess_bits(n);
    reveal_with_fuel(excess_bits, 13);
    assert(shift <= 11);
    let left = (k - shift) as nat;
    let r = round_half_even(n, pow2(shift));
    lemma_rounding(n, shift);
    lemma_pow2_adds(shift, left);
    let d = pow2(shift) as int;
    let e = pow2(left) as int;
    assert(d * e == unit);
    lemma_pow2_pos(left);
    let t = r as int / e;
    lemma_fundamental_div_mod(r as int, e);
    lemma_mod_bound(r as int, e);
    lemma_div_pos_is_pos(r as int, e);
    assert(t * unit <= r * d && r * d < (t + 1) * unit) by (nonlinear_arith)
        requires
            d * e == unit,
            d > 0,
            e > 0,
            e * t <= r < e * t + e,
    ;
    assert(e >= 2) by {
        lemma_pow2_strictly_increases(0, left);
    }
    assert(d <= unit) by (nonlinear_arith)
        requires
            d * e == unit,
            d > 0,
            e > 0,
    ;
    assert((t - 1) * unit == t * unit - unit) by (nonlinear_arith);
    assert((t + 2) * unit == (t + 1) * unit + unit) by (nonlinear_arith);
    assert(r <= 0x20_0000_0000_0000 * 2048) by {
        assert(r * d <= n + d);
        assert(r <= r * d) by (nonlinear_arith)
            requires
                d > 0,
                r >= 0,
        ;
    }
    lemma_div_is_ordered_by_denominator(r as int, 2, e);
    assert(scale + shift == -(left as int));
    assert(1000 * m == m * 1000) by (nonlinear_arith);
    assert(instant_of(Number::Float(bits)) == Some(t as i64));
}

/// A whole number beyond what a double holds exactly is an instant that lies at
/// most a second or so beside it, or the largest instant.
pub proof fn law_great_integers_are_near_their_instants(n: u64)
    requires
        n >= 0x20_0000_0000_0000,
    ensures
        ({
            let instant = instant_of(Number::PosInt(n));
            &&& instant is Some
            &&& instant->0 <= n + 1024
            &&& n <= instant->0 + 1024 || instant->0 == i64::MAX
        }),
{
    let shift = excess_bits(n as nat);
    reveal_with_fuel(excess_bits, 13);
    assert(1 <= shift <= 11);
    lemma2_to64();
    lemma_rounding(n as nat, shift);
    let d = pow2(shift) as int;
    let r = round_half_even(n as nat, pow2(shift)) as int;
    if shift < 11 {
        lemma_pow2_strictly_increases(shift, 11);
    }
    assert(d <= 2048);
    assert(r * d > 1_000_000_000_000);
    assert(r * d == (r as nat) * pow2(shift));
}

/// Each decimal is made of digits, the last of which is the last decimal place.
pub proof fn law_decimal_is_written_in_digits(n: nat)
    ensures
        decimal(n).len() > 0,
        forall|i: int| 0 <= i < decimal(n).len() ==> '0' <= #[trigger] decimal(n)[i] <= '9',
        decimal(n).last() as nat == 0x30 + n % 10,
        n < 10 ==> decimal(n).len() == 1,
        n >= 10 ==> decimal(n).drop_last() == decimal(n / 10),
    decreases n,
{
    if n >= 10 {
        law_decimal_is_written_in_digits(n / 10);
        assert(decimal(n).drop_last() =~= decimal(n / 10));
        assert forall|i: int| 0 <= i < decimal(n).len() implies '0' <= #[trigger] decimal(n)[i]
            <= '9' by {
            if i < decimal(n / 10).len() {
                assert(decimal(n)[i] == decimal(n / 10)[i]);
            }
        }
    }
}

/// Different numbers are written differently.
pub proof fn law_decimals_differ(a: nat, b: nat)
    requires
        decimal(a) == decimal(b),
    ensures
        a == b,
    decreases a,
{
    law_decimal_is_written_in_digits(a);
    law_decimal_is_written_in_digits(b);
    if a >= 10 {
        if b < 10 {
            law_decimal_is_written_in_digits(a / 10);
        } else {
            law_decimals_differ(a / 10, b / 10);
        }
    } else if b >= 10 {
        law_decimal_is_written_in_digits(b / 10);
    }
}

/// A text without the separator is one piece.
pub proof fn law_text_without_separator_is_one_piece(s: Seq<char>, separator: char)
    requires
        !s.contains(separator),
    ensures
        pieces(s, separator) == seq![s],
    decreases s.len(),
{
    if s.len() == 0 {
        assert(s =~= Seq::empty());
    } else {
        let rest = s.drop_last();
        assert(!rest.contains(separator)) by {
            if rest.contains(separator) {
                let i = choose|i: int| 0 <= i < rest.len() && rest[i] == separator;
                assert(s[i] == separator);
            }
        }
        law_text_without_separator_is_one_piece(rest, separator);
        assert(s[s.len() - 1] != separator);
        assert(rest.push(s.last()) =~= s);
        assert(pieces(s, separator) =~= seq![s]);
    }
}

} // verus!
