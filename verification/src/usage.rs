//! Token counts of one recorded turn: which fields carry them, how inclusive
//! input is split from the cache counts, and which amount was charged.

use vstd::prelude::*;

use crate::json::{
    amount_at, count_at, json_f64_keys, json_u64_keys, member, names, Json, JsonView,
};
use crate::number::Number;
use crate::object::{law_added_member_is_found, with_member};

verus! {

/// Token counts of one turn. `input_tokens` holds the uncached input.
#[derive(Clone, Copy, Debug, PartialEq, Eq, Structural)]
pub struct TokenUsageRaw {
    pub input_tokens: u64,
    pub output_tokens: u64,
    pub cache_creation_input_tokens: u64,
    pub cache_read_input_tokens: u64,
}

/// An amount that a record says was charged, in dollars or in cents.
#[derive(Clone, Copy, Debug, PartialEq, Eq, Structural)]
pub enum RecordedCost {
    Usd(Number),
    Cents(Number),
}

/// What a usage object records.
#[derive(Clone, Copy, Debug, PartialEq, Eq, Structural)]
pub struct ParsedUsage {
    pub usage: TokenUsageRaw,
    pub cost_usd: Option<RecordedCost>,
}

/// Whether any of the counts is not zero.
pub open spec fn has_tokens(usage: TokenUsageRaw) -> bool {
    ||| usage.input_tokens > 0
    ||| usage.output_tokens > 0
    ||| usage.cache_creation_input_tokens > 0
    ||| usage.cache_read_input_tokens > 0
}

/// All tokens of one turn.
pub open spec fn token_total(usage: TokenUsageRaw) -> nat {
    (usage.input_tokens + usage.output_tokens + usage.cache_creation_input_tokens
        + usage.cache_read_input_tokens) as nat
}

/// All tokens of one turn. Four counts can exceed the largest of them.
pub fn total_usage_tokens(usage: TokenUsageRaw) -> (total: u128)
    ensures
        total == token_total(usage),
{
    usage.input_tokens as u128 + usage.output_tokens as u128
        + usage.cache_creation_input_tokens as u128 + usage.cache_read_input_tokens as u128
}

/// Whether `total` is the sum of input, output and cache counts, so that the
/// input does not hold the cache counts.
pub open spec fn is_exclusive(
    input: u64,
    output: u64,
    cache_read: u64,
    cache_write: u64,
    total: Option<u64>,
) -> bool {
    total matches Some(t) && t == input + output + cache_read + cache_write
}

/// The uncached part of the input: all of it where it is exclusive, else what
/// is left of it without the cache counts, and zero where they exceed it.
pub open spec fn uncached_input(
    input: u64,
    output: u64,
    cache_read: u64,
    cache_write: u64,
    total: Option<u64>,
) -> u64 {
    if is_exclusive(input, output, cache_read, cache_write, total) {
        input
    } else if input >= cache_read + cache_write {
        (input - (cache_read + cache_write)) as u64
    } else {
        0
    }
}

/// Splits recorded input into uncached input, cache reads and cache writes.
///
/// Hook and SDK input includes the cache counts, unless the recorded total is
/// the sum of input, output, cache reads and cache writes.
pub fn split_input_tokens(
    input: u64,
    output: u64,
    cache_read: u64,
    cache_write: u64,
    total: Option<u64>,
) -> (split: (u64, u64, u64))
    ensures
        split == (
            uncached_input(input, output, cache_read, cache_write, total),
            cache_read,
            cache_write,
        ),
{
    let cached: u128 = cache_read as u128 + cache_write as u128;
    let exclusive = match total {
        Some(t) => t as u128 == input as u128 + output as u128 + cached,
        None => false,
    };
    if exclusive {
        (input, cache_read, cache_write)
    } else if input as u128 >= cached {
        ((input as u128 - cached) as u64, cache_read, cache_write)
    } else {
        (0, cache_read, cache_write)
    }
}

pub open spec fn input_keys() -> Seq<Seq<char>> {
    seq!["inputTokens"@, "input_tokens"@, "prompt_tokens"@]
}

pub open spec fn output_keys() -> Seq<Seq<char>> {
    seq!["outputTokens"@, "output_tokens"@, "completion_tokens"@]
}

pub open spec fn cache_read_keys() -> Seq<Seq<char>> {
    seq!["cacheReadTokens"@, "cache_read_tokens"@, "cache_read_input_tokens"@]
}

pub open spec fn cache_write_keys() -> Seq<Seq<char>> {
    seq![
        "cacheWriteTokens"@,
        "cache_write_tokens"@,
        "cache_write_input_tokens"@,
        "cacheCreationTokens"@,
        "cache_creation_input_tokens"@,
    ]
}

pub open spec fn total_keys() -> Seq<Seq<char>> {
    seq!["totalTokens"@, "total_tokens"@]
}

pub open spec fn dollar_keys() -> Seq<Seq<char>> {
    seq!["costUSD"@, "cost_usd"@, "costUsd"@]
}

pub open spec fn cent_keys() -> Seq<Seq<char>> {
    seq!["chargedCents"@, "charged_cents"@]
}

/// A count that is zero where it is not recorded.
pub open spec fn count_or_zero(v: JsonView, keys: Seq<Seq<char>>) -> u64 {
    match count_at(v, keys) {
        Some(count) => count,
        None => 0,
    }
}

/// The charged amount that a usage object records: dollars before cents.
pub open spec fn cost_in(v: JsonView) -> Option<RecordedCost> {
    match amount_at(v, dollar_keys()) {
        Some(amount) => Some(RecordedCost::Usd(amount)),
        None => match amount_at(v, cent_keys()) {
            Some(amount) => Some(RecordedCost::Cents(amount)),
            None => None,
        },
    }
}

/// What a usage object records: an object with an input count and at least
/// one count that is not zero.
pub open spec fn usage_in(v: JsonView) -> Option<ParsedUsage> {
    match count_at(v, input_keys()) {
        None => None,
        Some(input) => {
            let output = count_or_zero(v, output_keys());
            let cache_read = count_or_zero(v, cache_read_keys());
            let cache_write = count_or_zero(v, cache_write_keys());
            if input == 0 && output == 0 && cache_read == 0 && cache_write == 0 {
                None
            } else {
                Some(
                    ParsedUsage {
                        usage: TokenUsageRaw {
                            input_tokens: uncached_input(
                                input,
                                output,
                                cache_read,
                                cache_write,
                                count_at(v, total_keys()),
                            ),
                            output_tokens: output,
                            cache_creation_input_tokens: cache_write,
                            cache_read_input_tokens: cache_read,
                        },
                        cost_usd: cost_in(v),
                    },
                )
            }
        },
    }
}

/// The usage that a value that may be absent records.
pub open spec fn usage_in_opt(v: Option<JsonView>) -> Option<ParsedUsage> {
    match v {
        Some(json) => usage_in(json),
        None => None,
    }
}

fn count_in_value(value: &Json, keys: &[&str]) -> (count: u64)
    ensures
        count == count_or_zero(value@, names(keys@)),
{
    match json_u64_keys(value, keys) {
        Some(count) => count,
        None => 0,
    }
}

/// Reads a usage object.
pub fn parse_usage_value(value: &Json) -> (parsed: Option<ParsedUsage>)
    ensures
        parsed == usage_in(value@),
{
    let input_names = ["inputTokens", "input_tokens", "prompt_tokens"];
    proof {
        assert(names(input_names@) =~= input_keys());
    }
    let input: u64 = match json_u64_keys(value, &input_names) {
        Some(count) => count,
        None => {
            return None;
        },
    };
    let output_names = ["outputTokens", "output_tokens", "completion_tokens"];
    let cache_read_names = ["cacheReadTokens", "cache_read_tokens", "cache_read_input_tokens"];
    let cache_write_names = [
        "cacheWriteTokens",
        "cache_write_tokens",
        "cache_write_input_tokens",
        "cacheCreationTokens",
        "cache_creation_input_tokens",
    ];
    let total_names = ["totalTokens", "total_tokens"];
    let dollar_names = ["costUSD", "cost_usd", "costUsd"];
    let cent_names = ["chargedCents", "charged_cents"];
    proof {
        assert(names(output_names@) =~= output_keys());
        assert(names(cache_read_names@) =~= cache_read_keys());
        assert(names(cache_write_names@) =~= cache_write_keys());
        assert(names(total_names@) =~= total_keys());
        assert(names(dollar_names@) =~= dollar_keys());
        assert(names(cent_names@) =~= cent_keys());
    }
    let output: u64 = count_in_value(value, &output_names);
    let cache_read: u64 = count_in_value(value, &cache_read_names);
    let cache_write: u64 = count_in_value(value, &cache_write_names);
    let total = json_u64_keys(value, &total_names);
    if input == 0 && output == 0 && cache_read == 0 && cache_write == 0 {
        return None;
    }
    let (input_tokens, cache_read_input_tokens, cache_creation_input_tokens) = split_input_tokens(
        input,
        output,
        cache_read,
        cache_write,
        total,
    );
    let cost_usd = match json_f64_keys(value, &dollar_names) {
        Some(amount) => Some(RecordedCost::Usd(amount)),
        None => match json_f64_keys(value, &cent_names) {
            Some(amount) => Some(RecordedCost::Cents(amount)),
            None => None,
        },
    };
    Some(
        ParsedUsage {
            usage: TokenUsageRaw {
                input_tokens,
                output_tokens: output,
                cache_creation_input_tokens,
                cache_read_input_tokens,
            },
            cost_usd,
        },
    )
}

/// A usage object that is read carries at least one count that is not zero.
pub proof fn law_parsed_usage_has_tokens(v: JsonView)
    ensures
        usage_in(v) matches Some(parsed) ==> has_tokens(parsed.usage),
{
}

/// An object whose counts are all zero is skipped.
pub proof fn law_zero_usage_is_skipped(v: JsonView)
    requires
        count_or_zero(v, input_keys()) == 0,
        count_or_zero(v, output_keys()) == 0,
        count_or_zero(v, cache_read_keys()) == 0,
        count_or_zero(v, cache_write_keys()) == 0,
    ensures
        usage_in(v) is None,
{
}

/// Inclusive input is shared out without loss: uncached input and cache counts
/// add up to it.
pub proof fn law_inclusive_input_is_shared_out(
    input: u64,
    output: u64,
    cache_read: u64,
    cache_write: u64,
    total: Option<u64>,
)
    requires
        !is_exclusive(input, output, cache_read, cache_write, total),
        input >= cache_read + cache_write,
    ensures
        uncached_input(input, output, cache_read, cache_write, total) + cache_read + cache_write
            == input,
{
}

/// Exclusive counts add up to the recorded total.
pub proof fn law_exclusive_counts_add_up(
    input: u64,
    output: u64,
    cache_read: u64,
    cache_write: u64,
    total: u64,
)
    requires
        is_exclusive(input, output, cache_read, cache_write, Some(total)),
    ensures
        uncached_input(input, output, cache_read, cache_write, Some(total)) + output + cache_read
            + cache_write == total,
{
}

/// Whether two values have the same members under some names.
pub open spec fn agree_on(v: JsonView, w: JsonView, keys: Seq<Seq<char>>) -> bool {
    forall|i: int| 0 <= i < keys.len() ==> member(v, #[trigger] keys[i]) == member(w, keys[i])
}

proof fn lemma_agreeing_counts(v: JsonView, w: JsonView, keys: Seq<Seq<char>>)
    requires
        agree_on(v, w, keys),
    ensures
        count_at(v, keys) == count_at(w, keys),
        amount_at(v, keys) == amount_at(w, keys),
    decreases keys.len(),
{
    if keys.len() > 0 {
        assert(member(v, keys[0]) == member(w, keys[0]));
        assert forall|i: int| 0 <= i < keys.skip(1).len() implies member(
            v,
            #[trigger] keys.skip(1)[i],
        ) == member(w, keys.skip(1)[i]) by {
            assert(keys.skip(1)[i] == keys[i + 1]);
        }
        lemma_agreeing_counts(v, w, keys.skip(1));
    }
}

/// Only the token counts, the total and the recorded amount count: values that
/// agree on those record the same usage.
pub proof fn law_usage_reads_only_its_fields(v: JsonView, w: JsonView)
    requires
        agree_on(v, w, input_keys()),
        agree_on(v, w, output_keys()),
        agree_on(v, w, cache_read_keys()),
        agree_on(v, w, cache_write_keys()),
        agree_on(v, w, total_keys()),
        agree_on(v, w, dollar_keys()),
        agree_on(v, w, cent_keys()),
    ensures
        usage_in(v) == usage_in(w),
{
    lemma_agreeing_counts(v, w, input_keys());
    lemma_agreeing_counts(v, w, output_keys());
    lemma_agreeing_counts(v, w, cache_read_keys());
    lemma_agreeing_counts(v, w, cache_write_keys());
    lemma_agreeing_counts(v, w, total_keys());
    lemma_agreeing_counts(v, w, dollar_keys());
    lemma_agreeing_counts(v, w, cent_keys());
}

/// Whether none of some names is that name.
spec fn is_none_of(name: Seq<char>, keys: Seq<Seq<char>>) -> bool {
    forall|i: int| 0 <= i < keys.len() ==> #[trigger] keys[i] != name
}

proof fn lemma_agree_on_others(
    members: Seq<(Seq<char>, JsonView)>,
    name: Seq<char>,
    value: JsonView,
    keys: Seq<Seq<char>>,
)
    requires
        is_none_of(name, keys),
    ensures
        agree_on(
            JsonView::Object(with_member(members, name, value)),
            JsonView::Object(members),
            keys,
        ),
{
    let v = JsonView::Object(with_member(members, name, value));
    let w = JsonView::Object(members);
    assert forall|i: int| 0 <= i < keys.len() implies member(v, #[trigger] keys[i]) == member(
        w,
        keys[i],
    ) by {
        law_added_member_is_found(members, name, value, keys[i]);
    }
}

proof fn lemma_reasoning_is_no_field()
    ensures
        is_none_of("reasoningTokens"@, input_keys()),
        is_none_of("reasoningTokens"@, output_keys()),
        is_none_of("reasoningTokens"@, cache_read_keys()),
        is_none_of("reasoningTokens"@, cache_write_keys()),
        is_none_of("reasoningTokens"@, total_keys()),
        is_none_of("reasoningTokens"@, dollar_keys()),
        is_none_of("reasoningTokens"@, cent_keys()),
{
    reveal_strlit("reasoningTokens");
    reveal_strlit("inputTokens");
    reveal_strlit("input_tokens");
    reveal_strlit("prompt_tokens");
    reveal_strlit("outputTokens");
    reveal_strlit("output_tokens");
    reveal_strlit("completion_tokens");
    reveal_strlit("cacheReadTokens");
    reveal_strlit("cache_read_tokens");
    reveal_strlit("cache_read_input_tokens");
    reveal_strlit("cacheWriteTokens");
    reveal_strlit("cache_write_tokens");
    reveal_strlit("cache_write_input_tokens");
    reveal_strlit("cacheCreationTokens");
    reveal_strlit("cache_creation_input_tokens");
    reveal_strlit("totalTokens");
    reveal_strlit("total_tokens");
    reveal_strlit("costUSD");
    reveal_strlit("cost_usd");
    reveal_strlit("costUsd");
    reveal_strlit("chargedCents");
    reveal_strlit("charged_cents");
    let first = "reasoningTokens"@[0];
    assert("inputTokens"@[0] != first);
    assert("input_tokens"@[0] != first);
    assert("prompt_tokens"@[0] != first);
    assert("outputTokens"@[0] != first);
    assert("output_tokens"@[0] != first);
    assert("completion_tokens"@[0] != first);
    assert("cacheReadTokens"@[0] != first);
    assert("cache_read_tokens"@[0] != first);
    assert("cache_read_input_tokens"@[0] != first);
    assert("cacheWriteTokens"@[0] != first);
    assert("cache_write_tokens"@[0] != first);
    assert("cache_write_input_tokens"@[0] != first);
    assert("cacheCreationTokens"@[0] != first);
    assert("cache_creation_input_tokens"@[0] != first);
    assert("totalTokens"@[0] != first);
    assert("total_tokens"@[0] != first);
    assert("costUSD"@[0] != first);
    assert("cost_usd"@[0] != first);
    assert("costUsd"@[0] != first);
    assert("chargedCents"@[0] != first);
    assert("charged_cents"@[0] != first);
}

/// Reasoning tokens are part of the output and are not added again: a usage
/// object records the same with and without them.
pub proof fn law_reasoning_tokens_are_not_added(
    members: Seq<(Seq<char>, JsonView)>,
    reasoning: JsonView,
)
    ensures
        usage_in(JsonView::Object(with_member(members, "reasoningTokens"@, reasoning)))
            == usage_in(JsonView::Object(members)),
{
    let name = "reasoningTokens"@;
    lemma_reasoning_is_no_field();
    lemma_agree_on_others(members, name, reasoning, input_keys());
    lemma_agree_on_others(members, name, reasoning, output_keys());
    lemma_agree_on_others(members, name, reasoning, cache_read_keys());
    lemma_agree_on_others(members, name, reasoning, cache_write_keys());
    lemma_agree_on_others(members, name, reasoning, total_keys());
    lemma_agree_on_others(members, name, reasoning, dollar_keys());
    lemma_agree_on_others(members, name, reasoning, cent_keys());
    law_usage_reads_only_its_fields(
        JsonView::Object(with_member(members, name, reasoning)),
        JsonView::Object(members),
    );
}

} // verus!
