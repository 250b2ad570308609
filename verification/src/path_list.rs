//! Lists of paths in order, each path once.

use vstd::prelude::*;

use crate::order::{
    comes_before, is_stable_order, lemma_lex_antisymmetric, lemma_lex_transitive, lists,
    stable_order, SortKey,
};
use crate::source_path::{
    lemma_parts_are_ordered, name_text, part_le, path_below, path_le, path_views, PartView,
    SourcePath,
};

verus! {

/// Whether a list of paths is in order, each path once.
pub open spec fn strictly_ordered(paths: Seq<Seq<PartView>>) -> bool {
    forall|i: int, j: int|
        0 <= i < j < paths.len() ==> path_below(#[trigger] paths[i], #[trigger] paths[j])
}

/// Whether no earlier path of the list is the same as the `k`-th.
spec fn is_first(paths: Seq<Seq<PartView>>, k: int) -> bool {
    forall|j: int| 0 <= j < k ==> #[trigger] paths[j] != paths[k]
}

/// Whether one of the picked paths is the same as the `k`-th.
spec fn is_represented(paths: Seq<Seq<PartView>>, picked: Seq<usize>, k: int) -> bool {
    exists|i: int| 0 <= i < picked.len() && paths[#[trigger] picked[i] as int] == paths[k]
}

/// Whether `picked` lists, in the order of the paths, where each path of the
/// list stands first.
spec fn sifts(paths: Seq<Seq<PartView>>, picked: Seq<usize>) -> bool {
    &&& forall|i: int|
        0 <= i < picked.len() ==> #[trigger] picked[i] < paths.len() && is_first(
            paths,
            picked[i] as int,
        )
    &&& forall|i: int, j: int|
        0 <= i < j < picked.len() ==> path_below(
            paths[#[trigger] picked[i] as int],
            paths[#[trigger] picked[j] as int],
        )
    &&& forall|k: int| 0 <= k < paths.len() ==> #[trigger] is_represented(paths, picked, k)
}

proof fn lemma_path_below_transitive(a: Seq<PartView>, b: Seq<PartView>, c: Seq<PartView>)
    requires
        path_le(a, b),
        path_below(b, c),
    ensures
        path_below(a, c),
{
    lemma_parts_are_ordered();
    lemma_lex_transitive(part_le(), a, b, c);
    if a == c {
        lemma_lex_antisymmetric(part_le(), b, c);
    }
}

/// A path that differs from the one before it in the order stands first where
/// it stands.
proof fn lemma_new_path_is_first(
    list: Seq<SourcePath>,
    paths: Seq<Seq<PartView>>,
    order: Seq<usize>,
    k: int,
)
    requires
        paths == path_views(list),
        is_stable_order(list, false, order),
        0 <= k < order.len(),
        k > 0 ==> paths[order[k - 1] as int] != paths[order[k] as int],
    ensures
        is_first(paths, order[k] as int),
{
    let at = order[k] as int;
    assert forall|j: int| 0 <= j < at implies #[trigger] paths[j] != paths[at] by {
        if paths[j] == paths[at] {
            assert(lists(order, j));
            let m = choose|m: int| 0 <= m < order.len() && #[trigger] order[m] == j;
            if m > k {
                assert(comes_before(list, false, order[k] as int, order[m] as int));
                list[j].key_total(&list[at]);
            } else if m < k {
                let before = order[k - 1] as int;
                assert(comes_before(list, false, before, at));
                if m < k - 1 {
                    assert(comes_before(list, false, order[m] as int, order[k - 1] as int));
                } else {
                    list[j].key_total(&list[j]);
                }
                lemma_parts_are_ordered();
                lemma_lex_antisymmetric(part_le(), paths[before], paths[at]);
            }
        }
    }
}

/// Where each path of a list stands first, in the order of the paths.
fn sift(list: &Vec<SourcePath>) -> (picked: Vec<usize>)
    ensures
        sifts(path_views(list@), picked@),
{
    let order = stable_order(list, false);
    let ghost paths = path_views(list@);
    let mut picked: Vec<usize> = Vec::new();
    let mut k: usize = 0;
    while k < order.len()
        invariant
            paths == path_views(list@),
            is_stable_order(list@, false, order@),
            k <= order@.len(),
            picked@.len() <= k,
            k > 0 ==> picked@.len() > 0 && paths[picked@.last() as int]
                == paths[order@[k - 1] as int],
            forall|i: int|
                0 <= i < picked@.len() ==> #[trigger] picked@[i] < paths.len() && is_first(
                    paths,
                    picked@[i] as int,
                ),
            forall|i: int, j: int|
                0 <= i < j < picked@.len() ==> path_below(
                    paths[#[trigger] picked@[i] as int],
                    paths[#[trigger] picked@[j] as int],
                ),
            forall|j: int|
                0 <= j < k ==> is_represented(paths, picked@, #[trigger] order@[j] as int),
        decreases order@.len() - k,
    {
        let at: usize = order[k];
        let ghost before = picked@;
        let n: usize = picked.len();
        let fresh = if n == 0 {
            true
        } else {
            !list[picked[n - 1]].same(&list[at])
        };
        if fresh {
            proof {
                lemma_new_path_is_first(list@, paths, order@, k as int);
                if k > 0 {
                    let last = before.last() as int;
                    assert(comes_before(list@, false, order@[k - 1] as int, at as int));
                    assert(path_below(paths[last], paths[at as int]));
                    assert forall|i: int| 0 <= i < before.len() implies path_below(
                        paths[#[trigger] before[i] as int],
                        paths[at as int],
                    ) by {
                        if i < before.len() - 1 {
                            lemma_path_below_transitive(
                                paths[before[i] as int],
                                paths[last],
                                paths[at as int],
                            );
                        }
                    }
                }
            }
            picked.push(at);
            proof {
                assert(picked@[before.len() as int] == at);
                assert forall|j: int| 0 <= j < k + 1 implies is_represented(
                    paths,
                    picked@,
                    #[trigger] order@[j] as int,
                ) by {
                    if j < k {
                        let i = choose|i: int|
                            0 <= i < before.len() && paths[#[trigger] before[i] as int]
                                == paths[order@[j] as int];
                        assert(picked@[i] == before[i]);
                    }
                }
            }
        } else {
            proof {
                assert(paths[picked@[n - 1] as int] == paths[at as int]);
            }
        }
        k += 1;
    }
    proof {
        assert forall|x: int| 0 <= x < paths.len() implies #[trigger] is_represented(
            paths,
            picked@,
            x,
        ) by {
            assert(lists(order@, x));
            let j = choose|j: int| 0 <= j < order@.len() && #[trigger] order@[j] == x;
            assert(is_represented(paths, picked@, order@[j] as int));
        }
    }
    picked
}

/// Whether the last component of a path is a name with that text.
pub open spec fn ends_in(path: Seq<PartView>, name: Seq<char>) -> bool {
    path.len() > 0 && (path.last() matches PartView::Normal(last) && name_text(last) == Some(name))
}

/// Whether the last component of each path is a name with that text.
pub open spec fn all_end_in(paths: Seq<Seq<PartView>>, name: Seq<char>) -> bool {
    forall|i: int| 0 <= i < paths.len() ==> ends_in(#[trigger] paths[i], name)
}

/// Lists of paths that end in one name do so together.
pub proof fn lemma_ends_append(a: Seq<Seq<PartView>>, b: Seq<Seq<PartView>>, name: Seq<char>)
    requires
        all_end_in(a, name),
        all_end_in(b, name),
    ensures
        all_end_in(a + b, name),
{
    assert forall|i: int| 0 <= i < (a + b).len() implies ends_in(#[trigger] (a + b)[i], name) by {
        if i < a.len() {
            assert(ends_in(a[i], name));
        } else {
            assert(ends_in(b[i - a.len()], name));
        }
    }
}

/// The paths of a list of paths that are told apart by a flag.
pub open spec fn flagged_paths(list: Seq<(SourcePath, bool)>) -> Seq<Seq<PartView>> {
    Seq::new(list.len(), |i: int| list[i].0@)
}

/// Whether one of the paths of the list is the given one, with the given flag.
pub open spec fn has_flagged(list: Seq<(SourcePath, bool)>, path: Seq<PartView>, flag: bool) -> bool {
    exists|i: int| 0 <= i < list.len() && (#[trigger] list[i]).0@ == path && list[i].1 == flag
}

/// Copies the picked paths, with a flag for those that stand at or behind
/// `count`.
fn pick_paths(list: &Vec<SourcePath>, count: usize, picked: &Vec<usize>) -> (paths: Vec<
    (SourcePath, bool),
>)
    requires
        sifts(path_views(list@), picked@),
    ensures
        paths@.len() == picked@.len(),
        forall|j: int|
            0 <= j < picked@.len() ==> (#[trigger] paths@[j]).0@ == list@[picked@[j] as int]@
                && paths@[j].1 == (picked@[j] >= count),
{
    let mut paths: Vec<(SourcePath, bool)> = Vec::new();
    let mut i: usize = 0;
    while i < picked.len()
        invariant
            sifts(path_views(list@), picked@),
            i <= picked@.len(),
            paths@.len() == i,
            forall|j: int|
                0 <= j < i ==> (#[trigger] paths@[j]).0@ == list@[picked@[j] as int]@
                    && paths@[j].1 == (picked@[j] >= count),
        decreases picked@.len() - i,
    {
        proof {
            assert(picked@[i as int] < path_views(list@).len());
        }
        let at: usize = picked[i];
        paths.push((list[at].duplicate(), at >= count));
        i += 1;
    }
    paths
}

/// Merges two lists of paths whose files have different names: in the order of
/// the paths, each path once, those of the second list with a flag.
pub(crate) fn merge_lists(
    first: Vec<SourcePath>,
    second: Vec<SourcePath>,
    Ghost(first_name): Ghost<Seq<char>>,
    Ghost(second_name): Ghost<Seq<char>>,
) -> (merged: Vec<(SourcePath, bool)>)
    requires
        first_name != second_name,
        all_end_in(path_views(first@), first_name),
        all_end_in(path_views(second@), second_name),
    ensures
        strictly_ordered(flagged_paths(merged@)),
        forall|path: Seq<PartView>| #[trigger]
            has_flagged(merged@, path, false) <==> path_views(first@).contains(path),
        forall|path: Seq<PartView>| #[trigger]
            has_flagged(merged@, path, true) <==> path_views(second@).contains(path),
{
    let ghost a = path_views(first@);
    let ghost b = path_views(second@);
    let count: usize = first.len();
    let mut list = first;
    let mut rest = second;
    list.append(&mut rest);
    let picked = sift(&list);
    let merged = pick_paths(&list, count, &picked);
    proof {
        let paths = a + b;
        assert(path_views(list@) =~= paths);
        assert forall|j: int| 0 <= j < picked@.len() implies (#[trigger] merged@[j]).0@
            == paths[picked@[j] as int] by {
            assert(picked@[j] < paths.len());
            assert(path_views(list@)[picked@[j] as int] == list@[picked@[j] as int]@);
        }
        assert forall|i: int, j: int|
            0 <= i < j < flagged_paths(merged@).len() implies path_below(
            #[trigger] flagged_paths(merged@)[i],
            #[trigger] flagged_paths(merged@)[j],
        ) by {
            assert(merged@[i].0@ == paths[picked@[i] as int]);
            assert(merged@[j].0@ == paths[picked@[j] as int]);
        }
        assert forall|path: Seq<PartView>| #[trigger]
            has_flagged(merged@, path, false) <==> a.contains(path) by {
            lemma_merged(a, b, first_name, second_name, picked@, merged@, path, false);
        }
        assert forall|path: Seq<PartView>| #[trigger]
            has_flagged(merged@, path, true) <==> b.contains(path) by {
            lemma_merged(a, b, first_name, second_name, picked@, merged@, path, true);
        }
    }
    merged
}

proof fn lemma_merged(
    a: Seq<Seq<PartView>>,
    b: Seq<Seq<PartView>>,
    first_name: Seq<char>,
    second_name: Seq<char>,
    picked: Seq<usize>,
    merged: Seq<(SourcePath, bool)>,
    path: Seq<PartView>,
    flag: bool,
)
    requires
        first_name != second_name,
        all_end_in(a, first_name),
        all_end_in(b, second_name),
        sifts(a + b, picked),
        merged.len() == picked.len(),
        forall|j: int|
            0 <= j < picked.len() ==> (#[trigger] merged[j]).0@ == (a + b)[picked[j] as int]
                && merged[j].1 == (picked[j] >= a.len()),
    ensures
        has_flagged(merged, path, flag) <==> (if flag {
            b
        } else {
            a
        }).contains(path),
{
    let paths = a + b;
    let own = if flag {
        b
    } else {
        a
    };
    if has_flagged(merged, path, flag) {
        let j = choose|j: int|
            0 <= j < merged.len() && (#[trigger] merged[j]).0@ == path && merged[j].1 == flag;
        let at = picked[j] as int;
        assert(picked[j] < paths.len());
        if flag {
            assert(b[at - a.len()] == path);
        } else {
            assert(a[at] == path);
        }
    }
    if own.contains(path) {
        let k = choose|k: int| 0 <= k < own.len() && own[k] == path;
        let place = if flag {
            k + a.len()
        } else {
            k
        };
        assert(paths[place] == path);
        assert(is_represented(paths, picked, place));
        let i = choose|i: int|
            0 <= i < picked.len() && paths[#[trigger] picked[i] as int] == paths[place];
        let at = picked[i] as int;
        assert(picked[i] < paths.len());
        assert(ends_in(own[k], if flag { second_name } else { first_name }));
        if at < a.len() {
            assert(ends_in(a[at], first_name));
        } else {
            assert(ends_in(b[at - a.len()], second_name));
        }
        assert(merged[i].0@ == path);
    }
}

proof fn lemma_ordered_lists_agree(a: Seq<Seq<PartView>>, b: Seq<Seq<PartView>>, n: int)
    requires
        strictly_ordered(a),
        strictly_ordered(b),
        forall|path: Seq<PartView>| #[trigger] a.contains(path) <==> b.contains(path),
        0 <= n <= a.len(),
        n <= b.len(),
    ensures
        forall|i: int| 0 <= i < n ==> #[trigger] a[i] == b[i],
    decreases n,
{
    if n > 0 {
        lemma_ordered_lists_agree(a, b, n - 1);
        let x = a[n - 1];
        let y = b[n - 1];
        if x != y {
            assert(a.contains(x));
            assert(b.contains(b[n - 1]));
            assert(a.contains(y));
            let j = choose|j: int| 0 <= j < b.len() && b[j] == x;
            let i = choose|i: int| 0 <= i < a.len() && a[i] == y;
            if j < n - 1 {
                assert(path_below(a[j], a[n - 1]));
            }
            if i < n - 1 {
                assert(path_below(b[i], b[n - 1]));
            }
            assert(path_below(b[n - 1], b[j]));
            assert(path_below(a[n - 1], a[i]));
            lemma_parts_are_ordered();
            lemma_lex_antisymmetric(part_le(), x, y);
        }
    }
}

proof fn lemma_ordered_list_is_no_longer(a: Seq<Seq<PartView>>, b: Seq<Seq<PartView>>)
    requires
        strictly_ordered(a),
        strictly_ordered(b),
        forall|path: Seq<PartView>| #[trigger] a.contains(path) <==> b.contains(path),
    ensures
        a.len() <= b.len(),
{
    if a.len() > b.len() {
        lemma_ordered_lists_agree(a, b, b.len() as int);
        let x = a[b.len() as int];
        assert(a.contains(x));
        let j = choose|j: int| 0 <= j < b.len() && b[j] == x;
        assert(path_below(a[j], a[b.len() as int]));
    }
}

/// Which files there are does not depend on the order in which folders are
/// read: lists in strict order with the same paths are the same.
pub proof fn law_listings_agree(a: Seq<Seq<PartView>>, b: Seq<Seq<PartView>>)
    requires
        strictly_ordered(a),
        strictly_ordered(b),
        forall|path: Seq<PartView>| #[trigger] a.contains(path) <==> b.contains(path),
    ensures
        a == b,
{
    lemma_ordered_list_is_no_longer(a, b);
    assert forall|path: Seq<PartView>| #[trigger] b.contains(path) <==> a.contains(path) by {
        assert(a.contains(path) <==> b.contains(path));
    }
    lemma_ordered_list_is_no_longer(b, a);
    lemma_ordered_lists_agree(a, b, a.len() as int);
    assert(a =~= b);
}

} // verus!
