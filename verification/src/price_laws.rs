//! Laws of prices: which names are looked up, in which order, and which price
//! counts.

use vstd::prelude::*;

use crate::parser::RecordView;
use crate::pricing::{
    add_names, all_forms, bare_display, candidates, cost_source, family_forms, first_price,
    is_price, lookup_id, model_forms, normalized, pricing_check, CostMode, CostView,
};
use crate::text::trimmed;

verus! {

/// Whether a double, given by its bits, is finite and above zero: the bits of
/// such doubles lie between those of zero and those of infinity.
pub open spec fn is_above_zero(bits: u64) -> bool {
    0 < bits < 0x7ff0_0000_0000_0000
}

proof fn lemma_prices_are_above_zero(bits: u64)
    ensures
        is_price(bits) <==> is_above_zero(bits),
{
    let exponent = (bits as int / 0x10_0000_0000_0000) % 0x800;
    let fraction = bits as int % 0x10_0000_0000_0000;
    assert(bits as int == (bits as int / 0x10_0000_0000_0000) * 0x10_0000_0000_0000 + fraction);
    if bits < 0x8000_0000_0000_0000 {
        assert(exponent == bits as int / 0x10_0000_0000_0000);
    }
}

/// The cost is the first price that is finite and above zero: it is one of the
/// prices, and none before it is finite and above zero.
pub proof fn law_first_usable_price_counts(quotes: Seq<u64>, some: int)
    requires
        0 <= some < quotes.len(),
        is_above_zero(quotes[some]),
    ensures
        exists|k: int|
            0 <= k <= some && first_price(quotes) == #[trigger] quotes[k] && is_above_zero(
                quotes[k],
            ) && forall|j: int| 0 <= j < k ==> !is_above_zero(#[trigger] quotes[j]),
    decreases quotes.len(),
{
    lemma_prices_are_above_zero(quotes[0]);
    if is_above_zero(quotes[0]) {
        assert(first_price(quotes) == quotes[0]);
    } else {
        let rest = quotes.skip(1);
        assert(rest[some - 1] == quotes[some]);
        law_first_usable_price_counts(rest, some - 1);
        let k = choose|k: int|
            0 <= k <= some - 1 && first_price(rest) == #[trigger] rest[k] && is_above_zero(rest[k])
                && forall|j: int| 0 <= j < k ==> !is_above_zero(#[trigger] rest[j]);
        assert(quotes[k + 1] == rest[k]);
        assert forall|j: int| 0 <= j < k + 1 implies !is_above_zero(#[trigger] quotes[j]) by {
            if j > 0 {
                assert(rest[j - 1] == quotes[j]);
            }
        }
    }
}

/// Where no price is finite and above zero the cost is zero.
pub proof fn law_no_usable_price_costs_nothing(quotes: Seq<u64>)
    requires
        forall|j: int| 0 <= j < quotes.len() ==> !is_above_zero(#[trigger] quotes[j]),
    ensures
        first_price(quotes) == 0,
    decreases quotes.len(),
{
    if quotes.len() > 0 {
        lemma_prices_are_above_zero(quotes[0]);
        assert(!is_above_zero(quotes[0]));
        assert forall|j: int| 0 <= j < quotes.skip(1).len() implies !is_above_zero(
            #[trigger] quotes.skip(1)[j],
        ) by {
            assert(quotes.skip(1)[j] == quotes[j + 1]);
        }
        law_no_usable_price_costs_nothing(quotes.skip(1));
    }
}

/// Prices behind the first usable one change nothing.
pub proof fn law_later_prices_change_nothing(quotes: Seq<u64>, more: Seq<u64>, some: int)
    requires
        0 <= some < quotes.len(),
        is_above_zero(quotes[some]),
    ensures
        first_price(quotes + more) == first_price(quotes),
    decreases quotes.len(),
{
    lemma_prices_are_above_zero(quotes[0]);
    assert((quotes + more)[0] == quotes[0]);
    if !is_above_zero(quotes[0]) {
        assert((quotes + more).skip(1) =~= quotes.skip(1) + more);
        assert(quotes.skip(1)[some - 1] == quotes[some]);
        law_later_prices_change_nothing(quotes.skip(1), more, some - 1);
    }
}

/// Whether `base` is what a name is listed by without its ending `-build`. The
/// ending stays where nothing or only `grok` would be left.
pub open spec fn is_base(name: Seq<char>, base: Seq<char>) -> bool {
    ||| name == base + "-build"@ && base.len() > 0 && base != "grok"@
    ||| name == base && forall|stem: Seq<char>|
        name == #[trigger] (stem + "-build"@) ==> stem.len() == 0 || stem == "grok"@
}

proof fn lemma_base(name: Seq<char>)
    ensures
        is_base(name, normalized(name)),
        forall|base: Seq<char>| #[trigger] is_base(name, base) ==> base == normalized(name),
{
    let ending = "-build"@;
    let base = normalized(name);
    if ending.is_suffix_of(name) {
        let stem = name.take(name.len() - ending.len());
        assert(name =~= stem + ending);
        assert forall|other: Seq<char>| name == #[trigger] (other + ending) implies other
            == stem by {
            assert(other =~= name.take(name.len() - ending.len()));
        }
    } else {
        assert forall|other: Seq<char>| name != #[trigger] (other + ending) by {
            if name == other + ending {
                assert(name.subrange(name.len() - ending.len(), name.len() as int) =~= ending);
                assert(ending.is_suffix_of(name));
            }
        }
    }
    assert forall|b: Seq<char>| #[trigger] is_base(name, b) implies b == base by {
        if name == b + ending {
            assert(name.subrange(name.len() - ending.len(), name.len() as int) =~= ending);
            assert(ending.is_suffix_of(name));
        }
    }
}

/// The place of a form among the forms of a name: the name itself, the name
/// without `-build`, and for Grok the names under which xAI lists it.
pub open spec fn is_form_at(name: Seq<char>, form: Seq<char>, place: int) -> bool {
    ||| place == 0 && form == name
    ||| place == 1 && is_base(name, form) && form != name
    ||| place == 2 && exists|base: Seq<char>| #[trigger]
        is_base(name, base) && "grok"@.is_prefix_of(base) && form == "xai/"@ + base
    ||| place == 3 && exists|base: Seq<char>| #[trigger]
        is_base(name, base) && "grok"@.is_prefix_of(base) && form == "x-ai/"@ + base
}

/// Whether a form is one under which a name may be listed. The empty name is
/// not listed.
pub open spec fn is_form(name: Seq<char>, form: Seq<char>) -> bool {
    name.len() > 0 && exists|place: int| #[trigger] is_form_at(name, form, place)
}

proof fn lemma_forms(name: Seq<char>)
    ensures
        forall|i: int|
            0 <= i < model_forms(name).len() ==> is_form(name, #[trigger] model_forms(name)[i]),
        forall|form: Seq<char>| #[trigger] is_form(name, form) ==> model_forms(name).contains(form),
{
    lemma_base(name);
    let forms = model_forms(name);
    let base = normalized(name);
    let grok = "grok"@.is_prefix_of(base);
    if name.len() > 0 {
        assert(forms[0] == name);
        if base != name {
            assert(forms[1] == base);
        }
        if grok {
            let at: int = if base != name {
                2
            } else {
                1
            };
            assert(forms[at] == "xai/"@ + base);
            assert(forms[at + 1] == "x-ai/"@ + base);
        }
        assert forall|i: int| 0 <= i < forms.len() implies is_form(name, #[trigger] forms[i]) by {
            let form = forms[i];
            if i == 0 {
                assert(is_form_at(name, form, 0));
            } else if base != name && i == 1 {
                assert(is_form_at(name, form, 1));
            } else if form == "xai/"@ + base {
                assert(is_form_at(name, form, 2));
            } else {
                assert(is_form_at(name, form, 3));
            }
        }
        assert forall|form: Seq<char>| #[trigger] is_form(name, form) implies forms.contains(
            form,
        ) by {
            let place = choose|place: int| #[trigger] is_form_at(name, form, place);
            if place == 0 {
                assert(forms[0] == form);
            }
        }
    }
}

/// Whether a name is of the Grok Build family.
pub open spec fn is_grok_build(name: Seq<char>) -> bool {
    name == "grok-build"@ || name == "grok-build"@ + "-build"@
}

/// The names of the Grok Build family.
pub open spec fn is_family_name(form: Seq<char>) -> bool {
    form == "grok-build-0.1"@ || form == "xai/grok-build-0.1"@ || form == "x-ai/grok-build-0.1"@
}

/// A name of the Grok Build family is also listed under the names of the family,
/// in their order; any other name is not.
pub proof fn law_grok_build_is_a_family(name: Seq<char>)
    ensures
        is_grok_build(name) ==> family_forms(name) == seq![
            "grok-build-0.1"@,
            "xai/grok-build-0.1"@,
            "x-ai/grok-build-0.1"@,
        ],
        !is_grok_build(name) ==> family_forms(name) == Seq::<Seq<char>>::empty(),
{
    lemma_base(name);
    reveal_strlit("grok-build");
    reveal_strlit("grok");
    reveal_strlit("-build");
    let ending = "-build"@;
    assert("grok-build"@ =~= "grok"@ + ending);
    if is_grok_build(name) {
        assert(is_base(name, "grok-build"@)) by {
            assert("grok-build"@ != "grok"@);
            if name == "grok-build"@ {
                assert forall|stem: Seq<char>| name == #[trigger] (stem + ending) implies stem
                    == "grok"@ by {
                    assert(stem =~= name.take(name.len() - ending.len()));
                    assert("grok"@ =~= name.take(name.len() - ending.len()));
                }
            }
        }
    }
}

/// Whether `idx` tells where each name of `list` stands first among `names`.
pub open spec fn tells_firsts(
    list: Seq<Seq<char>>,
    names: Seq<Seq<char>>,
    idx: Seq<int>,
) -> bool {
    &&& idx.len() == list.len()
    &&& forall|i: int|
        0 <= i < idx.len() ==> 0 <= #[trigger] idx[i] < names.len() && names[idx[i]] == list[i]
            && list[i].len() > 0 && forall|j: int|
            0 <= j < idx[i] ==> #[trigger] names[j] != list[i]
    &&& forall|i: int, j: int| 0 <= i < j < idx.len() ==> #[trigger] idx[i] < #[trigger] idx[j]
    &&& forall|p: int|
        0 <= p < names.len() && (#[trigger] names[p]).len() > 0 ==> list.contains(names[p])
}

proof fn lemma_firsts(names: Seq<Seq<char>>) -> (idx: Seq<int>)
    ensures
        tells_firsts(add_names(Seq::empty(), names), names, idx),
    decreases names.len(),
{
    let list = add_names(Seq::empty(), names);
    if names.len() == 0 {
        Seq::empty()
    } else {
        let rest = names.drop_last();
        let before = add_names(Seq::empty(), rest);
        let last = names.last();
        let earlier = lemma_firsts(rest);
        assert forall|i: int| 0 <= i < earlier.len() implies names[#[trigger] earlier[i]]
            == before[i] && forall|j: int|
            0 <= j < earlier[i] ==> #[trigger] names[j] != before[i] by {
            assert(rest[earlier[i]] == names[earlier[i]]);
            assert forall|j: int| 0 <= j < earlier[i] implies #[trigger] names[j]
                != before[i] by {
                assert(rest[j] == names[j]);
            }
        }
        if last.len() == 0 || before.contains(last) {
            assert forall|p: int|
                0 <= p < names.len() && (#[trigger] names[p]).len() > 0 implies list.contains(
                names[p],
            ) by {
                if p < rest.len() {
                    assert(rest[p] == names[p]);
                }
            }
            earlier
        } else {
            let idx = earlier.push(rest.len() as int);
            assert(list == before.push(last));
            assert forall|j: int| 0 <= j < rest.len() implies #[trigger] names[j] != last by {
                assert(rest[j] == names[j]);
                if names[j] == last {
                    assert(before.contains(rest[j]));
                }
            }
            assert forall|p: int|
                0 <= p < names.len() && (#[trigger] names[p]).len() > 0 implies list.contains(
                names[p],
            ) by {
                if p < rest.len() {
                    assert(rest[p] == names[p]);
                    let q = choose|q: int| 0 <= q < before.len() && before[q] == names[p];
                    assert(list[q] == names[p]);
                } else {
                    assert(list[before.len() as int] == names[p]);
                }
            }
            idx
        }
    }
}

/// The three names whose forms are looked up, in order: the model id, the
/// display name, and the display name without `cursor-`.
pub open spec fn is_looked_up(
    display: Seq<char>,
    model_id: Option<Seq<char>>,
    name: Seq<char>,
    place: int,
) -> bool {
    ||| place == 0 && (model_id matches Some(id) && name == trimmed(id))
    ||| place == 1 && name == trimmed(display)
    ||| place == 2 && trimmed(display) == "cursor-"@ + name
}

proof fn lemma_bare(display: Seq<char>)
    ensures
        bare_display(display).len() > 0 ==> trimmed(display) == "cursor-"@ + bare_display(display),
        forall|name: Seq<char>|
            trimmed(display) == #[trigger] ("cursor-"@ + name) ==> name == bare_display(display),
{
    let start = "cursor-"@;
    let shown = trimmed(display);
    if start.is_prefix_of(shown) {
        assert(shown =~= start + shown.skip(start.len() as int));
    }
    assert forall|name: Seq<char>| shown == #[trigger] (start + name) implies name == bare_display(
        display,
    ) by {
        assert(start.is_prefix_of(start + name));
        assert((start + name).skip(start.len() as int) =~= name);
    }
}

/// Each form of the model id, of the display name and of the display name
/// without `cursor-` is looked up.
pub proof fn law_forms_are_looked_up(
    display: Seq<char>,
    model_id: Option<Seq<char>>,
    name: Seq<char>,
    place: int,
    form: Seq<char>,
)
    requires
        is_looked_up(display, model_id, name, place),
        is_form(name, form),
    ensures
        candidates(display, model_id).contains(form),
{
    let all = all_forms(display, model_id);
    let a = model_forms(lookup_id(model_id));
    let b = model_forms(trimmed(display));
    let c = model_forms(bare_display(display));
    lemma_firsts(all);
    lemma_forms(name);
    lemma_bare(display);
    lemma_form_is_not_empty(name, form);
    let i = choose|i: int| 0 <= i < model_forms(name).len() && model_forms(name)[i] == form;
    if place == 0 {
        assert(all[i] == a[i]);
    } else if place == 1 {
        assert(all[a.len() + i] == b[i]);
    } else {
        assert(all[a.len() + b.len() + i] == c[i]);
    }
}

proof fn lemma_form_is_not_empty(name: Seq<char>, form: Seq<char>)
    requires
        is_form(name, form),
    ensures
        form.len() > 0,
{
    reveal_strlit("xai/");
    reveal_strlit("x-ai/");
    lemma_base(name);
}

/// A model of the Grok Build family is also looked up under the names of the
/// family.
pub proof fn law_family_names_are_looked_up(
    display: Seq<char>,
    model_id: Option<Seq<char>>,
    name: Seq<char>,
    place: int,
    form: Seq<char>,
)
    requires
        is_looked_up(display, model_id, name, place),
        is_grok_build(name),
        is_family_name(form),
    ensures
        candidates(display, model_id).contains(form),
{
    let all = all_forms(display, model_id);
    let a = model_forms(lookup_id(model_id));
    let b = model_forms(trimmed(display));
    let c = model_forms(bare_display(display));
    let n = a.len() + b.len() + c.len();
    let d = family_forms(lookup_id(model_id));
    let e = family_forms(trimmed(display));
    let f = family_forms(bare_display(display));
    lemma_firsts(all);
    lemma_bare(display);
    law_grok_build_is_a_family(name);
    reveal_strlit("grok-build-0.1");
    reveal_strlit("xai/grok-build-0.1");
    reveal_strlit("x-ai/grok-build-0.1");
    let i: int = if form == "grok-build-0.1"@ {
        0
    } else if form == "xai/grok-build-0.1"@ {
        1
    } else {
        2
    };
    if place == 0 {
        assert(all[n + i] == d[i]);
    } else if place == 1 {
        assert(all[n + d.len() + i] == e[i]);
    } else {
        assert(all[n + d.len() + e.len() + i] == f[i]);
    }
}

/// Nothing else is looked up: each candidate is a form of one of the three
/// names, or a name of the Grok Build family where one of them is of it.
pub proof fn law_nothing_else_is_looked_up(
    display: Seq<char>,
    model_id: Option<Seq<char>>,
    i: int,
)
    requires
        0 <= i < candidates(display, model_id).len(),
    ensures
        exists|name: Seq<char>, place: int| #[trigger]
            is_looked_up(display, model_id, name, place) && (is_form(
                name,
                candidates(display, model_id)[i],
            ) || (is_grok_build(name) && is_family_name(candidates(display, model_id)[i]))),
{
    let all = all_forms(display, model_id);
    let idx = lemma_firsts(all);
    let form = candidates(display, model_id)[i];
    let p = idx[i];
    let id = lookup_id(model_id);
    let shown = trimmed(display);
    let bare = bare_display(display);
    lemma_forms(id);
    lemma_forms(shown);
    lemma_forms(bare);
    law_grok_build_is_a_family(id);
    law_grok_build_is_a_family(shown);
    law_grok_build_is_a_family(bare);
    lemma_bare(display);
    let a = model_forms(id);
    let b = model_forms(shown);
    let c = model_forms(bare);
    let d = family_forms(id);
    let e = family_forms(shown);
    let f = family_forms(bare);
    reveal_strlit("grok-build");
    if p < a.len() {
        assert(all[p] == a[p]);
        assert(is_looked_up(display, model_id, id, 0));
    } else if p < a.len() + b.len() {
        assert(all[p] == b[p - a.len()]);
        assert(is_looked_up(display, model_id, shown, 1));
    } else if p < a.len() + b.len() + c.len() {
        assert(all[p] == c[p - a.len() - b.len()]);
        assert(is_looked_up(display, model_id, bare, 2));
    } else if p < a.len() + b.len() + c.len() + d.len() {
        assert(all[p] == d[p - a.len() - b.len() - c.len()]);
        assert(is_looked_up(display, model_id, id, 0));
    } else if p < a.len() + b.len() + c.len() + d.len() + e.len() {
        assert(all[p] == e[p - a.len() - b.len() - c.len() - d.len()]);
        assert(is_looked_up(display, model_id, shown, 1));
    } else {
        assert(all[p] == f[p - a.len() - b.len() - c.len() - d.len() - e.len()]);
        assert(is_looked_up(display, model_id, bare, 2));
    }
}

/// Whether a form is one of the first of the three names, up to the given one.
pub open spec fn is_form_up_to(
    display: Seq<char>,
    model_id: Option<Seq<char>>,
    last: int,
    form: Seq<char>,
) -> bool {
    exists|name: Seq<char>, place: int| #[trigger]
        is_looked_up(display, model_id, name, place) && place <= last && is_form(name, form)
}

/// The forms of the model id are looked up before all other names, those of the
/// display name before the rest, and the names of the Grok Build family after
/// all forms.
pub proof fn law_model_id_then_display_then_family(
    display: Seq<char>,
    model_id: Option<Seq<char>>,
    last: int,
    i: int,
    j: int,
)
    requires
        0 <= last <= 2,
        0 <= i < candidates(display, model_id).len(),
        0 <= j < candidates(display, model_id).len(),
        is_form_up_to(display, model_id, last, candidates(display, model_id)[i]),
        !is_form_up_to(display, model_id, last, candidates(display, model_id)[j]),
    ensures
        i < j,
{
    let all = all_forms(display, model_id);
    let list = candidates(display, model_id);
    let idx = lemma_firsts(all);
    let id = lookup_id(model_id);
    let shown = trimmed(display);
    let bare = bare_display(display);
    lemma_forms(id);
    lemma_forms(shown);
    lemma_forms(bare);
    lemma_bare(display);
    let a = model_forms(id);
    let b = model_forms(shown);
    let c = model_forms(bare);
    let end = if last == 0 {
        a.len()
    } else if last == 1 {
        a.len() + b.len()
    } else {
        a.len() + b.len() + c.len()
    };
    let (name, place) = choose|name: Seq<char>, place: int| #[trigger]
        is_looked_up(display, model_id, name, place) && place <= last && is_form(name, list[i]);
    lemma_forms(name);
    let forms = model_forms(name);
    let q = choose|q: int| 0 <= q < forms.len() && forms[q] == list[i];
    assert(idx[i] < end) by {
        let at = if place == 0 {
            q
        } else if place == 1 {
            a.len() + q
        } else {
            a.len() + b.len() + q
        };
        assert(all[at] == list[i]);
    }
    let p = idx[j];
    assert(p >= end) by {
        if p < end {
            if p < a.len() {
                assert(all[p] == a[p]);
                assert(is_looked_up(display, model_id, id, 0));
            } else if p < a.len() + b.len() {
                assert(all[p] == b[p - a.len()]);
                assert(is_looked_up(display, model_id, shown, 1));
            } else {
                assert(all[p] == c[p - a.len() - b.len()]);
                assert(is_looked_up(display, model_id, bare, 2));
            }
        }
    }
    if j < i {
        assert(idx[j] < idx[i]);
    }
}

proof fn lemma_forms_differ(name: Seq<char>)
    ensures
        model_forms(name).no_duplicates(),
{
    let forms = model_forms(name);
    let base = normalized(name);
    if name.len() > 0 && "grok"@.is_prefix_of(base) {
        lemma_base(name);
        reveal_strlit("xai/");
        reveal_strlit("x-ai/");
        reveal_strlit("grok");
        let x = "xai/"@ + base;
        let y = "x-ai/"@ + base;
        assert(x[1] != y[1]);
        assert(base[0] == "grok"@[0]);
        assert(name[0] == base[0]);
        assert(x[0] == 'x');
        assert(y[0] == 'x');
        assert(x != name && y != name && x != base && y != base && x != y);
        if base != name {
            assert(forms =~= seq![name, base, x, y]);
        } else {
            assert(forms =~= seq![name, x, y]);
        }
    } else if name.len() > 0 {
        if base != name {
            assert(forms =~= seq![name, base]);
        } else {
            assert(forms =~= seq![name]);
        }
    }
}

proof fn lemma_form_stands_at(name: Seq<char>, form: Seq<char>, place: int) -> (q: int)
    requires
        name.len() > 0,
        is_form_at(name, form, place),
    ensures
        0 <= q < model_forms(name).len(),
        model_forms(name)[q] == form,
        place == 0 ==> q == 0,
        place == 1 ==> q == 1 && normalized(name) != name,
        place >= 2 ==> q == (if normalized(name) != name {
            place
        } else {
            place - 1
        }),
{
    lemma_base(name);
    let base = normalized(name);
    if place == 0 {
        0
    } else if place == 1 {
        1
    } else if base != name {
        place
    } else {
        place - 1
    }
}

/// Where two names can only be forms of the model id, or there is only a
/// display name, they are looked up in the order of the forms: the name itself,
/// the name without `-build`, then the names under which xAI lists it.
pub proof fn law_forms_keep_their_order(
    display: Seq<char>,
    model_id: Option<Seq<char>>,
    name: Seq<char>,
    first: Seq<char>,
    first_place: int,
    second: Seq<char>,
    second_place: int,
)
    requires
        name.len() > 0,
        match model_id {
            Some(id) => if trimmed(id).len() > 0 {
                name == trimmed(id)
            } else {
                name == trimmed(display)
            },
            None => name == trimmed(display),
        },
        is_form_at(name, first, first_place),
        is_form_at(name, second, second_place),
        first_place < second_place,
        first != second,
    ensures
        exists|i: int, j: int|
            0 <= i < j < candidates(display, model_id).len() && #[trigger] candidates(
                display,
                model_id,
            )[i] == first && #[trigger] candidates(display, model_id)[j] == second,
{
    let all = all_forms(display, model_id);
    let list = candidates(display, model_id);
    let idx = lemma_firsts(all);
    let forms = model_forms(name);
    lemma_forms_differ(name);
    assert(is_form(name, first));
    assert(is_form(name, second));
    lemma_form_is_not_empty(name, first);
    lemma_form_is_not_empty(name, second);
    assert(lookup_id(model_id).len() == 0 ==> model_forms(lookup_id(model_id)) =~= Seq::empty());
    assert forall|q: int| 0 <= q < forms.len() implies all[q] == #[trigger] forms[q] by {}
    let q = lemma_form_stands_at(name, first, first_place);
    let r = lemma_form_stands_at(name, second, second_place);
    assert(all[q] == first && all[r] == second);
    let i = choose|i: int| 0 <= i < list.len() && list[i] == all[q];
    let j = choose|j: int| 0 <= j < list.len() && list[j] == all[r];
    assert(0 <= idx[i] <= q) by {
        if q < idx[i] {
            assert(all[q] != list[i]);
        }
    }
    assert(idx[j] >= r) by {
        let p = idx[j];
        if p < r {
            assert(all[p] == forms[p]);
            assert(forms[p] != forms[r]);
        }
    }
    if j < i {
        assert(idx[j] < idx[i]);
    }
    assert(list[i] == first && list[j] == second);
}

/// The forms of a name stand in order, each once: the name itself, the name
/// without `-build`, then the names under which xAI lists it. The empty name has
/// none.
pub proof fn law_forms_of_a_name_stand_in_order(name: Seq<char>, i: int, j: int)
    requires
        0 <= i < j < model_forms(name).len(),
    ensures
        name.len() > 0,
        model_forms(name)[0] == name,
        exists|p: int, q: int|
            p < q && #[trigger] is_form_at(name, model_forms(name)[i], p)
                && #[trigger] is_form_at(name, model_forms(name)[j], q),
        model_forms(name)[i] != model_forms(name)[j],
{
    lemma_base(name);
    lemma_forms_differ(name);
    let base = normalized(name);
    let forms = model_forms(name);
    let shift: int = if base != name {
        0
    } else {
        1
    };
    let p = if i == 0 {
        0
    } else {
        i + shift
    };
    let q = j + shift;
    assert(is_form_at(name, forms[0], 0));
    if base != name {
        assert(is_form_at(name, forms[1], 1));
    }
    if forms.len() > 2 {
        assert(forms[2 - shift] == "xai/"@ + base);
        assert(forms[3 - shift] == "x-ai/"@ + base);
        assert(is_form_at(name, forms[2 - shift], 2));
        assert(is_form_at(name, forms[3 - shift], 3));
    }
    assert(is_form_at(name, forms[i], p));
    assert(is_form_at(name, forms[j], q));
}

/// The names to look up are the forms of the model id, of the display name and
/// of the display name without `cursor-`, and then the names of the Grok Build
/// family, each where it stands first.
pub proof fn law_candidates_stand_where_they_stand_first(
    display: Seq<char>,
    model_id: Option<Seq<char>>,
    id: Seq<char>,
    bare: Seq<char>,
)
    requires
        model_id matches Some(raw) ==> id == trimmed(raw),
        model_id is None ==> id.len() == 0,
        trimmed(display) == "cursor-"@ + bare || (bare.len() == 0 && !"cursor-"@.is_prefix_of(
            trimmed(display),
        )),
    ensures
        exists|idx: Seq<int>| #[trigger]
            tells_firsts(
                candidates(display, model_id),
                model_forms(id) + model_forms(trimmed(display)) + model_forms(bare) + family_forms(
                    id,
                ) + family_forms(trimmed(display)) + family_forms(bare),
                idx,
            ),
{
    lemma_bare(display);
    let start = "cursor-"@;
    if trimmed(display) == start + bare {
        assert(bare == bare_display(display));
    } else {
        assert(bare_display(display) =~= bare);
    }
    assert(lookup_id(model_id) =~= id);
    let idx = lemma_firsts(all_forms(display, model_id));
    assert(tells_firsts(candidates(display, model_id), all_forms(display, model_id), idx));
}

/// In auto mode an amount that is recorded is the cost, whatever it is.
pub proof fn law_recorded_amount_is_the_cost(record: RecordView)
    ensures
        record.cost_usd matches Some(cost) ==> cost_source(record, CostMode::Auto)
            == CostView::Recorded(cost),
{
}

/// Where the cost comes from tokens, the price tables are checked for the names
/// that are looked up, under the label of the record and for all its tokens.
pub proof fn law_check_names_what_is_looked_up(record: RecordView, mode: CostMode)
    ensures
        match cost_source(record, mode) {
            CostView::FromTokens(names) => {
                &&& names == candidates(record.model, record.model_id)
                &&& pricing_check(record, mode) matches Some(check)
                &&& check.model == record.model
                &&& check.candidates == names
                &&& check.tokens == record.usage.input_tokens + record.usage.output_tokens
                    + record.usage.cache_creation_input_tokens
                    + record.usage.cache_read_input_tokens
            },
            _ => pricing_check(record, mode) is None,
        },
{
}

} // verus!
