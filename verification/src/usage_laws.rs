//! Laws of token counts: what a usage object records, told by its fields.

use vstd::prelude::*;

use crate::json::{amount_at, count_at, JsonView};
use crate::usage::{
    cent_keys, cache_read_keys, cache_write_keys, dollar_keys, input_keys, output_keys,
    token_total, total_keys, uncached_input, usage_in, usage_in_opt, RecordedCost, TokenUsageRaw,
};

verus! {

/// Where the recorded total is the sum of input, output, cache reads and cache
/// writes, the input is kept as it is: the four counts add up to the total.
pub proof fn law_input_is_kept_where_the_total_says_so(
    input: u64,
    output: u64,
    cache_read: u64,
    cache_write: u64,
    total: u64,
)
    requires
        total == input + output + cache_read + cache_write,
    ensures
        uncached_input(input, output, cache_read, cache_write, Some(total)) == input,
        uncached_input(input, output, cache_read, cache_write, Some(total)) + output + cache_read
            + cache_write == total,
{
}

/// Where no total is recorded, or another one, the input holds the cache
/// counts: without them it is what is left of it, and nothing where they exceed
/// it.
pub proof fn law_cache_counts_are_taken_from_the_input(
    input: u64,
    output: u64,
    cache_read: u64,
    cache_write: u64,
    total: Option<u64>,
)
    requires
        total matches Some(t) ==> t != input + output + cache_read + cache_write,
    ensures
        input >= cache_read + cache_write ==> uncached_input(
            input,
            output,
            cache_read,
            cache_write,
            total,
        ) + cache_read + cache_write == input,
        input < cache_read + cache_write ==> uncached_input(
            input,
            output,
            cache_read,
            cache_write,
            total,
        ) == 0,
{
}

/// A count that may be absent, as a number.
pub open spec fn or_zero(count: Option<u64>) -> int {
    match count {
        Some(n) => n as int,
        None => 0,
    }
}

/// What a usage object records, told by its fields. It needs an input count
/// and a count that is not zero. Output, cache reads and cache writes are taken
/// over. The input is taken over where it adds up with them to the recorded
/// total, else the cache counts are taken from it.
pub proof fn law_usage_is_read_from_its_fields(v: JsonView)
    ensures
        ({
            let input = count_at(v, seq!["inputTokens"@, "input_tokens"@, "prompt_tokens"@]);
            let output = or_zero(
                count_at(v, seq!["outputTokens"@, "output_tokens"@, "completion_tokens"@]),
            );
            let cache_read = or_zero(
                count_at(
                    v,
                    seq!["cacheReadTokens"@, "cache_read_tokens"@, "cache_read_input_tokens"@],
                ),
            );
            let cache_write = or_zero(
                count_at(
                    v,
                    seq![
                        "cacheWriteTokens"@,
                        "cache_write_tokens"@,
                        "cache_write_input_tokens"@,
                        "cacheCreationTokens"@,
                        "cache_creation_input_tokens"@,
                    ],
                ),
            );
            let total = count_at(v, seq!["totalTokens"@, "total_tokens"@]);
            match usage_in(v) {
                None => input is None || (input == Some(0u64) && output == 0 && cache_read == 0
                    && cache_write == 0),
                Some(parsed) => {
                    &&& input is Some
                    &&& input->0 + output + cache_read + cache_write > 0
                    &&& parsed.usage.output_tokens == output
                    &&& parsed.usage.cache_read_input_tokens == cache_read
                    &&& parsed.usage.cache_creation_input_tokens == cache_write
                    &&& (total is Some && total->0 == input->0 + output + cache_read + cache_write)
                        ==> parsed.usage.input_tokens == input->0
                    &&& (total is None || total->0 != input->0 + output + cache_read + cache_write)
                        && input->0 >= cache_read + cache_write ==> parsed.usage.input_tokens
                        + cache_read + cache_write == input->0
                    &&& (total is None || total->0 != input->0 + output + cache_read + cache_write)
                        && input->0 < cache_read + cache_write ==> parsed.usage.input_tokens == 0
                },
            }
        }),
{
    assert(input_keys() =~= seq!["inputTokens"@, "input_tokens"@, "prompt_tokens"@]);
    assert(output_keys() =~= seq!["outputTokens"@, "output_tokens"@, "completion_tokens"@]);
    assert(cache_read_keys() =~= seq![
        "cacheReadTokens"@,
        "cache_read_tokens"@,
        "cache_read_input_tokens"@,
    ]);
    assert(cache_write_keys() =~= seq![
        "cacheWriteTokens"@,
        "cache_write_tokens"@,
        "cache_write_input_tokens"@,
        "cacheCreationTokens"@,
        "cache_creation_input_tokens"@,
    ]);
    assert(total_keys() =~= seq!["totalTokens"@, "total_tokens"@]);
}

/// The charged amount of a usage object is the amount in dollars that it
/// records, else the amount in cents, and there is none where it records
/// neither.
pub proof fn law_dollars_come_before_cents(v: JsonView)
    ensures
        usage_in(v) matches Some(parsed) ==> match (
            amount_at(v, seq!["costUSD"@, "cost_usd"@, "costUsd"@]),
            amount_at(v, seq!["chargedCents"@, "charged_cents"@]),
        ) {
            (Some(dollars), _) => parsed.cost_usd == Some(RecordedCost::Usd(dollars)),
            (None, Some(cents)) => parsed.cost_usd == Some(RecordedCost::Cents(cents)),
            (None, None) => parsed.cost_usd is None,
        },
{
    assert(dollar_keys() =~= seq!["costUSD"@, "cost_usd"@, "costUsd"@]);
    assert(cent_keys() =~= seq!["chargedCents"@, "charged_cents"@]);
}

/// A usage object that is absent records nothing, and one that is there what it
/// records itself.
pub proof fn law_absent_usage_records_nothing(v: JsonView)
    ensures
        usage_in_opt(None) is None,
        usage_in_opt(Some(v)) == usage_in(v),
{
}

/// All tokens of a turn are its uncached input, its output, its cache writes
/// and its cache reads, each once.
pub proof fn law_all_tokens_are_added_up(usage: TokenUsageRaw)
    ensures
        token_total(usage) == usage.cache_read_input_tokens as int + usage.output_tokens as int
            + usage.input_tokens as int + usage.cache_creation_input_tokens as int,
{
}

} // verus!
