//! Building JSON objects whose members stand in the order of their names.

use vstd::prelude::*;

use crate::json::{json_view, member_among, Json, JsonView, Member};
use crate::order::{
    char_le, lemma_lex_antisymmetric, lemma_lex_total, lemma_lex_transitive, text_at_most, text_le,
};
use crate::text::text_eq;

verus! {

/// The views of a list of members.
pub open spec fn member_views(members: Seq<Member>) -> Seq<(Seq<char>, JsonView)> {
    Seq::new(members.len(), |i: int| (members[i].key@, members[i].value@))
}

/// The members with one more: in place of the member of that name where there
/// is one, else before the members whose names come after it.
pub open spec fn with_member(
    members: Seq<(Seq<char>, JsonView)>,
    key: Seq<char>,
    value: JsonView,
) -> Seq<(Seq<char>, JsonView)>
    decreases members.len(),
{
    if members.len() == 0 {
        seq![(key, value)]
    } else if members.last().0 == key {
        members.drop_last().push((key, value))
    } else if text_le(members.last().0, key) {
        members.push((key, value))
    } else {
        with_member(members.drop_last(), key, value).push(members.last())
    }
}

/// Whether the members stand in the order of their names, each name once.
pub open spec fn is_ordered(members: Seq<(Seq<char>, JsonView)>) -> bool {
    forall|i: int, j: int|
        0 <= i < j < members.len() ==> name_below(
            (#[trigger] members[i]).0,
            (#[trigger] members[j]).0,
        )
}

/// Whether a name comes before another.
pub open spec fn name_below(a: Seq<char>, b: Seq<char>) -> bool {
    text_le(a, b) && a != b
}

/// The view of an object is the object of its members' views.
pub proof fn lemma_object_view(members: Vec<Member>)
    ensures
        Json::Object(members)@ == JsonView::Object(member_views(members@)),
{
    let object = Json::Object(members);
    assert(object@ == json_view(object));
    assert(object@->Object_0 =~= member_views(members@));
}

proof fn lemma_with_member_below(
    members: Seq<(Seq<char>, JsonView)>,
    key: Seq<char>,
    value: JsonView,
    bound: Seq<char>,
)
    requires
        forall|i: int| 0 <= i < members.len() ==> name_below((#[trigger] members[i]).0, bound),
        name_below(key, bound),
    ensures
        forall|i: int|
            0 <= i < with_member(members, key, value).len() ==> name_below(
                (#[trigger] with_member(members, key, value)[i]).0,
                bound,
            ),
    decreases members.len(),
{
    if members.len() > 0 && members.last().0 != key && !text_le(members.last().0, key) {
        let rest = members.drop_last();
        assert forall|i: int| 0 <= i < rest.len() implies name_below(
            (#[trigger] rest[i]).0,
            bound,
        ) by {
            assert(name_below(members[i].0, bound));
        }
        lemma_with_member_below(rest, key, value, bound);
    }
    let all = with_member(members, key, value);
    assert forall|i: int| 0 <= i < all.len() implies name_below((#[trigger] all[i]).0, bound) by {
        if members.len() > 0 && (members.last().0 == key || text_le(members.last().0, key)) {
            if i < members.len() {
                assert(name_below(members[i].0, bound));
            }
        } else if members.len() > 0 {
            assert(name_below(members[members.len() - 1].0, bound));
            assert(all == with_member(members.drop_last(), key, value).push(members.last()));
        }
    }
}

/// Adding a member keeps the names in order, each once.
pub proof fn law_members_stay_ordered(
    members: Seq<(Seq<char>, JsonView)>,
    key: Seq<char>,
    value: JsonView,
)
    requires
        is_ordered(members),
    ensures
        is_ordered(with_member(members, key, value)),
    decreases members.len(),
{
    if members.len() > 0 {
        let last = members.last();
        let rest = members.drop_last();
        assert forall|i: int| 0 <= i < rest.len() implies name_below(
            (#[trigger] rest[i]).0,
            last.0,
        ) by {
            assert(name_below(members[i].0, members[members.len() - 1].0));
        }
        if last.0 == key {
        } else if text_le(last.0, key) {
            assert forall|i: int| 0 <= i < members.len() implies name_below(
                (#[trigger] members[i]).0,
                key,
            ) by {
                if i < rest.len() {
                    assert(name_below(rest[i].0, last.0));
                    lemma_lex_transitive(char_le(), rest[i].0, last.0, key);
                    if rest[i].0 == key {
                        lemma_lex_antisymmetric(char_le(), last.0, key);
                    }
                }
            }
        } else {
            lemma_lex_total(char_le(), last.0, key);
            assert(is_ordered(rest)) by {
                assert forall|i: int, j: int| 0 <= i < j < rest.len() implies name_below(
                    (#[trigger] rest[i]).0,
                    (#[trigger] rest[j]).0,
                ) by {
                    assert(name_below(members[i].0, members[j].0));
                }
            }
            law_members_stay_ordered(rest, key, value);
            lemma_with_member_below(rest, key, value, last.0);
        }
    }
}

/// An added member is found under its name, and the others under theirs.
pub proof fn law_added_member_is_found(
    members: Seq<(Seq<char>, JsonView)>,
    key: Seq<char>,
    value: JsonView,
    name: Seq<char>,
)
    ensures
        member_among(with_member(members, key, value), name) == (if name == key {
            Some(value)
        } else {
            member_among(members, name)
        }),
    decreases members.len(),
{
    let all = with_member(members, key, value);
    if members.len() == 0 {
        assert(all.drop_last() =~= Seq::empty());
        assert(member_among(all.drop_last(), name) is None);
    } else if members.last().0 == key {
        assert(all.drop_last() =~= members.drop_last());
    } else if text_le(members.last().0, key) {
        assert(all.drop_last() =~= members);
    } else {
        law_added_member_is_found(members.drop_last(), key, value, name);
        assert(all.drop_last() =~= with_member(members.drop_last(), key, value));
    }
}

proof fn lemma_tail_stays(
    members: Seq<(Seq<char>, JsonView)>,
    key: Seq<char>,
    value: JsonView,
    n: int,
)
    requires
        0 <= n <= members.len(),
        forall|j: int|
            n <= j < members.len() ==> (#[trigger] members[j]).0 != key && !text_le(
                members[j].0,
                key,
            ),
    ensures
        with_member(members, key, value) == with_member(members.take(n), key, value)
            + members.skip(n),
    decreases members.len() - n,
{
    if n == members.len() {
        assert(members.take(n) =~= members);
        assert(members.skip(n) =~= Seq::empty());
        assert(with_member(members, key, value) + members.skip(n) =~= with_member(
            members,
            key,
            value,
        ));
    } else {
        lemma_tail_stays(members, key, value, n + 1);
        let head = members.take(n + 1);
        assert(head.last() == members[n]);
        assert(head.drop_last() =~= members.take(n));
        assert(with_member(head, key, value) == with_member(members.take(n), key, value).push(
            members[n],
        ));
        assert(with_member(members.take(n), key, value).push(members[n]) + members.skip(n + 1)
            =~= with_member(members.take(n), key, value) + members.skip(n));
    }
}

/// Adds a member, in place of the member of that name where there is one, else
/// before the members whose names come after it.
pub fn insert_member(members: &mut Vec<Member>, key: String, value: Json)
    ensures
        member_views(final(members)@) == with_member(member_views(old(members)@), key@, value@),
{
    let ghost before = members@;
    let ghost views = member_views(before);
    let mut i: usize = members.len();
    let mut same = false;
    while i > 0 && !same
        invariant
            members@ == before,
            views == member_views(before),
            i <= before.len(),
            same ==> i < before.len() && before[i as int].key@ == key@,
            forall|j: int|
                (if same {
                    i + 1
                } else {
                    i as int
                }) <= j < views.len() ==> (#[trigger] views[j]).0 != key@ && !text_le(
                    views[j].0,
                    key@,
                ),
        ensures
            members@ == before,
            i <= before.len(),
            same ==> i < before.len() && before[i as int].key@ == key@,
            forall|j: int|
                (if same {
                    i + 1
                } else {
                    i as int
                }) <= j < views.len() ==> (#[trigger] views[j]).0 != key@ && !text_le(
                    views[j].0,
                    key@,
                ),
            !same && i > 0 ==> before[i - 1].key@ != key@ && text_le(before[i - 1].key@, key@),
        decreases i, if same { 0int } else { 1int },
    {
        let name = members[i - 1].key.as_str();
        if text_eq(name, key.as_str()) {
            i -= 1;
            same = true;
        } else if text_at_most(name, key.as_str()) {
            break;
        } else {
            i -= 1;
        }
    }
    if same {
        proof {
            lemma_tail_stays(views, key@, value@, i + 1);
            let head = views.take(i + 1);
            assert(head.last() == views[i as int]);
            assert(with_member(head, key@, value@) == head.drop_last().push((key@, value@)));
        }
        let ghost added = (key@, value@);
        members.set(i, Member { key, value });
        proof {
            assert(member_views(members@) =~= views.take(i + 1).drop_last().push(added)
                + views.skip(i + 1));
        }
    } else {
        proof {
            lemma_tail_stays(views, key@, value@, i as int);
            let head = views.take(i as int);
            if i > 0 {
                assert(head.last() == views[i - 1]);
            }
            assert(with_member(head, key@, value@) =~= head.push((key@, value@)));
        }
        let ghost added = (key@, value@);
        members.insert(i, Member { key, value });
        proof {
            assert(member_views(members@) =~= views.take(i as int).push(added)
                + views.skip(i as int));
        }
    }
}

} // verus!
