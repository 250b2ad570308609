//! Which model names to look up a price by, and where a cost comes from.

use vstd::prelude::*;

use crate::number::{double_finite, double_negative, double_parts, double_significand};
use crate::parser::{CursorUsageRecord, RecordView};
use crate::text::{
    opt_view, strip_prefix, strip_suffix, text_eq, texts, trim, trimmed, without_prefix,
    without_suffix,
};
use crate::usage::{token_total, total_usage_tokens, RecordedCost};

verus! {

/// A model name without the ending `-build`, unless nothing else or only
/// `grok` would be left.
pub open spec fn normalized(raw: Seq<char>) -> Seq<char> {
    match without_suffix(raw, "-build"@) {
        Some(stem) => if stem != "grok"@ && stem.len() > 0 {
            stem
        } else {
            raw
        },
        None => raw,
    }
}

/// The names under which a model may be listed.
pub open spec fn model_forms(raw: Seq<char>) -> Seq<Seq<char>> {
    if raw.len() == 0 {
        Seq::empty()
    } else {
        let name = normalized(raw);
        seq![raw] + (if name != raw {
            seq![name]
        } else {
            Seq::empty()
        }) + (if "grok"@.is_prefix_of(name) {
            seq!["xai/"@ + name, "x-ai/"@ + name]
        } else {
            Seq::empty()
        })
    }
}

/// The names of the Grok Build family that a model belongs to.
pub open spec fn family_forms(raw: Seq<char>) -> Seq<Seq<char>> {
    if normalized(raw) == "grok-build"@ {
        seq!["grok-build-0.1"@, "xai/grok-build-0.1"@, "x-ai/grok-build-0.1"@]
    } else {
        Seq::empty()
    }
}

/// A list with one more name, unless the name is empty or already there.
pub open spec fn add_name(list: Seq<Seq<char>>, name: Seq<char>) -> Seq<Seq<char>> {
    if name.len() == 0 || list.contains(name) {
        list
    } else {
        list.push(name)
    }
}

/// A list with more names, without empty names and repetitions.
pub open spec fn add_names(list: Seq<Seq<char>>, more: Seq<Seq<char>>) -> Seq<Seq<char>>
    decreases more.len(),
{
    if more.len() == 0 {
        list
    } else {
        add_name(add_names(list, more.drop_last()), more.last())
    }
}

/// The model id to look up, empty where there is none.
pub open spec fn lookup_id(model_id: Option<Seq<char>>) -> Seq<char> {
    match model_id {
        Some(id) => trimmed(id),
        None => Seq::empty(),
    }
}

/// The display name without `cursor-`, empty where it does not start so.
pub open spec fn bare_display(display: Seq<char>) -> Seq<char> {
    match without_prefix(trimmed(display), "cursor-"@) {
        Some(rest) => rest,
        None => Seq::empty(),
    }
}

/// All names to look up, in order: the model id, the display name, the display
/// name without `cursor-`, and then the Grok Build family.
pub open spec fn all_forms(display: Seq<char>, model_id: Option<Seq<char>>) -> Seq<Seq<char>> {
    model_forms(lookup_id(model_id)) + model_forms(trimmed(display)) + model_forms(
        bare_display(display),
    ) + family_forms(lookup_id(model_id)) + family_forms(trimmed(display)) + family_forms(
        bare_display(display),
    )
}

/// The names to look up a price by, each once.
pub open spec fn candidates(display: Seq<char>, model_id: Option<Seq<char>>) -> Seq<Seq<char>> {
    add_names(Seq::empty(), all_forms(display, model_id))
}

proof fn lemma_add_names_append(list: Seq<Seq<char>>, a: Seq<Seq<char>>, b: Seq<Seq<char>>)
    ensures
        add_names(add_names(list, a), b) == add_names(list, a + b),
    decreases b.len(),
{
    if b.len() == 0 {
        assert(a + b =~= a);
    } else {
        assert((a + b).drop_last() =~= a + b.drop_last());
        lemma_add_names_append(list, a, b.drop_last());
    }
}

fn push_name(list: &mut Vec<String>, name: String)
    ensures
        texts(final(list)@) == add_name(texts(old(list)@), name@),
{
    if name.as_str().is_empty() {
        return ;
    }
    let ghost before = list@;
    let mut i: usize = 0;
    while i < list.len()
        invariant
            list@ == before,
            i <= list@.len(),
            forall|j: int| 0 <= j < i ==> list@[j]@ != name@,
        decreases list@.len() - i,
    {
        if list[i] == name {
            proof {
                assert(texts(before)[i as int] == name@);
            }
            return ;
        }
        i += 1;
    }
    proof {
        assert(!texts(before).contains(name@)) by {
            if texts(before).contains(name@) {
                let j = choose|j: int|
                    0 <= j < texts(before).len() && texts(before)[j] == name@;
                assert(list@[j]@ == name@);
            }
        }
    }
    list.push(name);
    proof {
        assert(texts(list@) =~= texts(before).push(name@));
    }
}

fn normalized_name<'a>(raw: &'a str) -> (name: &'a str)
    ensures
        name@ == normalized(raw@),
{
    match strip_suffix(raw, "-build") {
        Some(stem) => if !text_eq(stem, "grok") && !stem.is_empty() {
            stem
        } else {
            raw
        },
        None => raw,
    }
}

/// Appends the names under which a model may be listed.
pub fn push_model_forms(list: &mut Vec<String>, raw: &str)
    ensures
        texts(final(list)@) == add_names(texts(old(list)@), model_forms(raw@)),
{
    let ghost start = texts(list@);
    if raw.is_empty() {
        return ;
    }
    let name = normalized_name(raw);
    let ghost first = seq![raw@];
    push_name(list, raw.to_owned());
    proof {
        assert(first.drop_last() =~= Seq::<Seq<char>>::empty());
        assert(add_names(start, first) == add_name(add_names(start, first.drop_last()), raw@));
    }
    let ghost second = if name@ != raw@ {
        seq![name@]
    } else {
        Seq::<Seq<char>>::empty()
    };
    if !text_eq(name, raw) {
        push_name(list, name.to_owned());
        proof {
            assert(second.drop_last() =~= Seq::<Seq<char>>::empty());
            assert(add_names(add_names(start, first), second) == add_name(
                add_names(add_names(start, first), second.drop_last()),
                name@,
            ));
        }
    }
    proof {
        lemma_add_names_append(start, first, second);
        assert(texts(list@) == add_names(start, first + second));
    }
    match strip_prefix(name, "grok") {
        Some(_) => {
            let ghost third = seq!["xai/"@ + name@, "x-ai/"@ + name@];
            let ghost before = texts(list@);
            push_name(list, "xai/".to_owned().concat(name));
            push_name(list, "x-ai/".to_owned().concat(name));
            proof {
                assert(third.drop_last().drop_last() =~= Seq::<Seq<char>>::empty());
                assert(add_names(before, third.drop_last().drop_last()) == before);
                assert(add_names(before, third.drop_last()) == add_name(before, third[0]));
                assert(add_names(before, third) == add_name(
                    add_names(before, third.drop_last()),
                    third[1],
                ));
                lemma_add_names_append(start, first + second, third);
                assert(model_forms(raw@) =~= first + second + third);
            }
        },
        None => {
            proof {
                assert(model_forms(raw@) =~= first + second);
            }
        },
    }
}

/// Appends the names of the Grok Build family that a model belongs to.
pub fn push_family_forms(list: &mut Vec<String>, raw: &str)
    ensures
        texts(final(list)@) == add_names(texts(old(list)@), family_forms(raw@)),
{
    let ghost start = texts(list@);
    let name = normalized_name(raw);
    if text_eq(name, "grok-build") {
        push_name(list, "grok-build-0.1".to_owned());
        push_name(list, "xai/grok-build-0.1".to_owned());
        push_name(list, "x-ai/grok-build-0.1".to_owned());
        proof {
            let forms = family_forms(raw@);
            assert(forms.drop_last().drop_last().drop_last() =~= Seq::<Seq<char>>::empty());
            assert(add_names(start, forms.drop_last().drop_last().drop_last()) == start);
            assert(add_names(start, forms.drop_last().drop_last()) == add_name(start, forms[0]));
            assert(add_names(start, forms.drop_last()) == add_name(
                add_names(start, forms.drop_last().drop_last()),
                forms[1],
            ));
            assert(add_names(start, forms) == add_name(
                add_names(start, forms.drop_last()),
                forms[2],
            ));
        }
    }
}

/// The names to look up a price by.
pub fn pricing_candidates(display: &str, model_id: Option<&str>) -> (list: Vec<String>)
    ensures
        texts(list@) == candidates(display@, opt_view(model_id)),
{
    let id: &str = match model_id {
        Some(raw) => trim(raw),
        None => "",
    };
    let shown: &str = trim(display);
    let bare: &str = match strip_prefix(shown, "cursor-") {
        Some(rest) => rest,
        None => "",
    };
    proof {
        reveal_strlit("");
        assert(""@ =~= Seq::<char>::empty());
    }
    let mut list: Vec<String> = Vec::new();
    let ghost none = Seq::<Seq<char>>::empty();
    proof {
        assert(texts(list@) =~= none);
    }
    push_model_forms(&mut list, id);
    push_model_forms(&mut list, shown);
    push_model_forms(&mut list, bare);
    push_family_forms(&mut list, id);
    push_family_forms(&mut list, shown);
    push_family_forms(&mut list, bare);
    proof {
        let a = model_forms(id@);
        let b = model_forms(shown@);
        let c = model_forms(bare@);
        let d = family_forms(id@);
        let e = family_forms(shown@);
        let f = family_forms(bare@);
        lemma_add_names_append(none, a, b);
        lemma_add_names_append(none, a + b, c);
        lemma_add_names_append(none, a + b + c, d);
        lemma_add_names_append(none, a + b + c + d, e);
        lemma_add_names_append(none, a + b + c + d + e, f);
    }
    list
}

proof fn lemma_add_names_keeps(list: Seq<Seq<char>>, more: Seq<Seq<char>>)
    requires
        list.no_duplicates(),
        forall|i: int| 0 <= i < list.len() ==> (#[trigger] list[i]).len() > 0,
    ensures
        add_names(list, more).no_duplicates(),
        forall|i: int|
            0 <= i < add_names(list, more).len() ==> (#[trigger] add_names(list, more)[i]).len()
                > 0,
        list.is_prefix_of(add_names(list, more)),
        forall|i: int|
            0 <= i < more.len() && (#[trigger] more[i]).len() > 0 ==> add_names(
                list,
                more,
            ).contains(more[i]),
    decreases more.len(),
{
    if more.len() > 0 {
        let before = add_names(list, more.drop_last());
        let after = add_names(list, more);
        lemma_add_names_keeps(list, more.drop_last());
        assert(before.is_prefix_of(after)) by {
            if after != before {
                assert(after == before.push(more.last()));
                assert(after.take(before.len() as int) =~= before);
            }
        }
        assert forall|i: int| 0 <= i < more.len() && (#[trigger] more[i]).len()
            > 0 implies after.contains(more[i]) by {
            if i < more.len() - 1 {
                assert(more.drop_last()[i] == more[i]);
                let j = choose|j: int| 0 <= j < before.len() && before[j] == more[i];
                assert(after[j] == more[i]);
            } else if !before.contains(more[i]) {
                assert(after[before.len() as int] == more[i]);
            }
        }
    }
}

/// No name is looked up twice, and no empty name is looked up.
pub proof fn law_candidates_are_distinct(display: Seq<char>, model_id: Option<Seq<char>>)
    ensures
        candidates(display, model_id).no_duplicates(),
        forall|i: int|
            0 <= i < candidates(display, model_id).len() ==> (#[trigger] candidates(
                display,
                model_id,
            )[i]).len() > 0,
{
    lemma_add_names_keeps(Seq::empty(), all_forms(display, model_id));
}

/// The model id is looked up before any other name.
pub proof fn law_model_id_comes_first(display: Seq<char>, model_id: Seq<char>)
    requires
        trimmed(model_id).len() > 0,
    ensures
        candidates(display, Some(model_id)).len() > 0,
        candidates(display, Some(model_id))[0] == trimmed(model_id),
{
    let all = all_forms(display, Some(model_id));
    let first = seq![trimmed(model_id)];
    let rest = all.skip(1);
    assert(all =~= first + rest);
    lemma_add_names_append(Seq::empty(), first, rest);
    assert(first.drop_last() =~= Seq::<Seq<char>>::empty());
    assert(add_names(Seq::empty(), first) == add_name(
        add_names(Seq::empty(), first.drop_last()),
        trimmed(model_id),
    ));
    assert(add_names(Seq::empty(), first) =~= first);
    lemma_add_names_keeps(first, rest);
    assert(candidates(display, Some(model_id)).take(1)[0] == first[0]);
}

/// Every name under which the model id, the display name, or the display name
/// without `cursor-` may be listed is looked up.
pub proof fn law_every_form_is_looked_up(
    display: Seq<char>,
    model_id: Option<Seq<char>>,
    form: Seq<char>,
)
    requires
        form.len() > 0,
        all_forms(display, model_id).contains(form),
    ensures
        candidates(display, model_id).contains(form),
{
    lemma_add_names_keeps(Seq::empty(), all_forms(display, model_id));
    let i = choose|i: int|
        0 <= i < all_forms(display, model_id).len() && all_forms(display, model_id)[i] == form;
    assert(all_forms(display, model_id)[i].len() > 0);
}

/// How costs are told: as recorded, as calculated, or recorded before
/// calculated.
#[derive(Clone, Copy, Debug, PartialEq, Eq, Structural)]
pub enum CostMode {
    Auto,
    Calculate,
    Display,
}

/// Where the cost of a record comes from.
#[derive(Debug)]
pub enum CursorCost {
    /// Nothing was charged.
    Nothing,
    /// The amount that the record names.
    Recorded(RecordedCost),
    /// The first usable price among those of the named models, in order.
    FromTokens(Vec<String>),
}

/// The mathematical view of where a cost comes from.
#[verifier::ext_equal]
pub enum CostView {
    Nothing,
    Recorded(RecordedCost),
    FromTokens(Seq<Seq<char>>),
}

impl View for CursorCost {
    type V = CostView;

    open spec fn view(&self) -> CostView {
        match self {
            CursorCost::Nothing => CostView::Nothing,
            CursorCost::Recorded(cost) => CostView::Recorded(*cost),
            CursorCost::FromTokens(models) => CostView::FromTokens(texts(models@)),
        }
    }
}

/// The names to look up the price of a record by.
pub open spec fn record_candidates(record: RecordView) -> Seq<Seq<char>> {
    candidates(record.model, record.model_id)
}

/// Where the cost of a record comes from: in display mode only from the record
/// itself, in calculate mode only from its tokens, else from its tokens where
/// it names no amount.
pub open spec fn cost_source(record: RecordView, mode: CostMode) -> CostView {
    match (mode, record.cost_usd) {
        (CostMode::Display, None) => CostView::Nothing,
        (CostMode::Display, Some(cost)) => CostView::Recorded(cost),
        (CostMode::Auto, Some(cost)) => CostView::Recorded(cost),
        _ => CostView::FromTokens(record_candidates(record)),
    }
}

pub(crate) fn candidates_of(record: &CursorUsageRecord) -> (list: Vec<String>)
    ensures
        texts(list@) == record_candidates(record@),
{
    let id: Option<&str> = match &record.model_id {
        Some(id) => Some(id.as_str()),
        None => None,
    };
    pricing_candidates(record.model.as_str(), id)
}

/// Where the cost of a record comes from.
pub fn calculate_cursor_cost(record: &CursorUsageRecord, mode: CostMode) -> (cost: CursorCost)
    ensures
        cost@ == cost_source(record@, mode),
{
    match mode {
        CostMode::Display => match record.cost_usd {
            Some(cost) => CursorCost::Recorded(cost),
            None => CursorCost::Nothing,
        },
        CostMode::Auto => match record.cost_usd {
            Some(cost) => CursorCost::Recorded(cost),
            None => CursorCost::FromTokens(candidates_of(record)),
        },
        CostMode::Calculate => CursorCost::FromTokens(candidates_of(record)),
    }
}

/// Whether a double, given by its bits, is finite and above zero.
pub open spec fn is_price(bits: u64) -> bool {
    double_finite(bits) && !double_negative(bits) && double_significand(bits) > 0
}

/// The first usable price, or zero.
pub open spec fn first_price(quotes: Seq<u64>) -> u64
    decreases quotes.len(),
{
    if quotes.len() == 0 {
        0
    } else if is_price(quotes[0]) {
        quotes[0]
    } else {
        first_price(quotes.skip(1))
    }
}

/// The cost of a record from the prices that its candidates gave, in their
/// order: the first that is finite and above zero, else zero. Prices are
/// doubles, given by their bits.
pub fn calculate_from_tokens(quotes: &Vec<u64>) -> (cost: u64)
    ensures
        cost == first_price(quotes@),
{
    let mut i: usize = 0;
    proof {
        assert(quotes@.skip(0) =~= quotes@);
    }
    while i < quotes.len()
        invariant
            i <= quotes@.len(),
            first_price(quotes@) == first_price(quotes@.skip(i as int)),
        decreases quotes@.len() - i,
    {
        proof {
            assert(quotes@.skip(i as int)[0] == quotes@[i as int]);
            assert(quotes@.skip(i as int).skip(1) =~= quotes@.skip(i + 1));
        }
        let (finite, negative, significand, _) = double_parts(quotes[i]);
        if finite && !negative && significand > 0 {
            return quotes[i];
        }
        i += 1;
    }
    0
}

/// What to check the price tables for, to tell whether a price is missing: the
/// names to look up, and for how many tokens.
#[derive(Debug)]
pub struct PricingCheck {
    pub model: String,
    pub candidates: Vec<String>,
    pub tokens: u128,
}

/// The mathematical view of a check of the price tables.
#[verifier::ext_equal]
pub struct CheckView {
    pub model: Seq<char>,
    pub candidates: Seq<Seq<char>>,
    pub tokens: nat,
}

impl View for PricingCheck {
    type V = CheckView;

    open spec fn view(&self) -> CheckView {
        CheckView {
            model: self.model@,
            candidates: texts(self.candidates@),
            tokens: self.tokens as nat,
        }
    }
}

/// The view of a check that may be absent.
pub open spec fn opt_check(check: Option<PricingCheck>) -> Option<CheckView> {
    match check {
        Some(c) => Some(c@),
        None => None,
    }
}

/// The check of the price tables that a record calls for: none in display
/// mode, and none where the recorded amount is used.
pub open spec fn pricing_check(record: RecordView, mode: CostMode) -> Option<CheckView> {
    if mode == CostMode::Display || (mode == CostMode::Auto && record.cost_usd is Some) {
        None
    } else {
        Some(
            CheckView {
                model: record.model,
                candidates: record_candidates(record),
                tokens: token_total(record.usage),
            },
        )
    }
}

/// The check of the price tables that a record calls for.
pub fn missing_cursor_pricing(record: &CursorUsageRecord, mode: CostMode) -> (check: Option<
    PricingCheck,
>)
    ensures
        opt_check(check) == pricing_check(record@, mode),
{
    if mode == CostMode::Display || (mode == CostMode::Auto && record.cost_usd.is_some()) {
        return None;
    }
    Some(
        PricingCheck {
            model: record.model.clone(),
            candidates: candidates_of(record),
            tokens: total_usage_tokens(record.usage),
        },
    )
}

/// The price tables are checked exactly where the cost comes from tokens.
pub proof fn law_check_goes_with_calculation(record: RecordView, mode: CostMode)
    ensures
        pricing_check(record, mode) is Some <==> cost_source(record, mode) is FromTokens,
{
}

/// In display mode a record costs what it names and nothing where it names no
/// amount.
pub proof fn law_display_shows_recorded_costs(record: RecordView)
    ensures
        cost_source(record, CostMode::Display) == (match record.cost_usd {
            Some(cost) => CostView::Recorded(cost),
            None => CostView::Nothing,
        }),
{
}

/// In calculate mode, and in auto mode where no amount is recorded, the cost
/// comes from the price tables.
pub proof fn law_costs_without_amount_are_calculated(record: RecordView)
    ensures
        cost_source(record, CostMode::Calculate) == CostView::FromTokens(record_candidates(record)),
        record.cost_usd is None ==> cost_source(record, CostMode::Auto) == CostView::FromTokens(
            record_candidates(record),
        ),
{
}

} // verus!
