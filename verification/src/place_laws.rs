//! Laws of places: what a path tells, where the roots are, which files below
//! them are found and in which order they come.

use vstd::prelude::*;
use vstd::utf8::*;

use crate::discovery::{
    agent_stores, all_agent_stores, all_sdk_files, all_stores, any_source, db_paths, files_in,
    found_dbs, found_ndjson, holds_file, lists_dbs, lists_ndjson, named_files, ndjson_paths,
    project_agent_stores, sdk_files, sdk_store_path, session_stores, stores_of_agents,
    CursorDbKind, CursorNdjsonKind, DbView, NdjsonView, Node, NodeKind, Project, RootListing,
};
use crate::order::{char_le, lex_le, text_le};
use crate::paths::{
    named_roots, nonblank_pieces, path_identity, position, root_plan, usable_roots, CursorError,
    PlanView, RootProbe,
};
use crate::source_path::{
    byte_le, folder_name, name_text, part_le, part_text, path_le, path_texts, PartView,
};
use crate::text::{pieces, trimmed};

verus! {

/// The position of a name in a list is where it stands first.
pub proof fn law_position_is_the_first(list: Seq<Seq<char>>, name: Seq<char>)
    ensures
        match position(list, name) {
            Some(i) => 0 <= i < list.len() && list[i] == name && forall|j: int|
                0 <= j < i ==> #[trigger] list[j] != name,
            None => forall|j: int| 0 <= j < list.len() ==> #[trigger] list[j] != name,
        },
    decreases list.len(),
{
    if list.len() > 0 && list[0] != name {
        let rest = list.skip(1);
        law_position_is_the_first(rest, name);
        match position(rest, name) {
            Some(i) => {
                assert(list[i + 1] == rest[i]);
                assert forall|j: int| 0 <= j < i + 1 implies #[trigger] list[j] != name by {
                    if j > 0 {
                        assert(rest[j - 1] == list[j]);
                    }
                }
            },
            None => {
                assert forall|j: int| 0 <= j < list.len() implies #[trigger] list[j] != name by {
                    if j > 0 {
                        assert(rest[j - 1] == list[j]);
                    }
                }
            },
        }
    }
}

/// The texts of a path are those of its components in order. A name has a text
/// where it is UTF-8.
pub proof fn law_paths_read_component_by_component(path: Seq<PartView>, part: PartView)
    ensures
        path_texts(Seq::empty()).len() == 0,
        part_text(part) matches Some(text) ==> path_texts(path.push(part)) == path_texts(
            path,
        ).push(text),
        part_text(part) is None ==> path_texts(path.push(part)) == path_texts(path),
        match part {
            PartView::Prefix(name) => part_text(part) == (if valid_utf8(name) {
                Some(decode_utf8(name))
            } else {
                None
            }),
            PartView::Root => part_text(part) == Some("/"@),
            PartView::Current => part_text(part) == Some("."@),
            PartView::Parent => part_text(part) == Some(".."@),
            PartView::Normal(name) => part_text(part) == (if valid_utf8(name) {
                Some(decode_utf8(name))
            } else {
                None
            }),
        },
{
    assert(path.push(part).drop_last() =~= path);
}

/// The folder of a path is its last component but one, where that is a name in
/// UTF-8.
pub proof fn law_folder_is_the_last_but_one(path: Seq<PartView>, folder: Seq<u8>, file: Seq<u8>)
    ensures
        valid_utf8(folder) ==> folder_name(
            path.push(PartView::Normal(folder)).push(PartView::Normal(file)),
        ) == Some(decode_utf8(folder)),
        !valid_utf8(folder) ==> folder_name(
            path.push(PartView::Normal(folder)).push(PartView::Normal(file)),
        ) is None,
{
    let whole = path.push(PartView::Normal(folder)).push(PartView::Normal(file));
    assert(whole[whole.len() - 2] == PartView::Normal(folder));
}

/// The text at an index of a list, or another where the list is shorter.
pub open spec fn at_or(list: Seq<Seq<char>>, i: int, other: Seq<char>) -> Seq<char> {
    if i < list.len() {
        list[i]
    } else {
        other
    }
}

/// Whether a name stands first in a list at an index.
pub open spec fn stands_first(list: Seq<Seq<char>>, name: Seq<char>, i: int) -> bool {
    &&& 0 <= i < list.len()
    &&& list[i] == name
    &&& forall|j: int| 0 <= j < i ==> #[trigger] list[j] != name
}

/// A path below `chats` tells workspace and session as the two components
/// behind that; else one below `acp-sessions` tells the session as the component
/// behind that; else one below `projects` tells the project as the component
/// behind that and its folder as the session; else its folder is the session.
pub proof fn law_path_tells_session_and_project(path: Seq<PartView>, i: int)
    ensures
        ({
            let parts = path_texts(path);
            let (session, project) = path_identity(path);
            let folder = folder_name(path);
            let chats = parts.contains("chats"@);
            let acp = parts.contains("acp-sessions"@);
            let projects = parts.contains("projects"@);
            &&& stands_first(parts, "chats"@, i) ==> session == at_or(parts, i + 2, "session"@)
                && project == at_or(parts, i + 1, "cursor"@)
            &&& !chats && stands_first(parts, "acp-sessions"@, i) ==> session == at_or(
                parts,
                i + 1,
                "session"@,
            ) && project == "acp"@
            &&& !chats && !acp && stands_first(parts, "projects"@, i) ==> session == (
            if folder is Some {
                folder->0
            } else {
                "sdk"@
            }) && project == at_or(parts, i + 1, "cursor"@)
            &&& !chats && !acp && !projects ==> session == (if folder is Some {
                folder->0
            } else {
                "cursor"@
            }) && project == "cursor"@
        }),
{
    let parts = path_texts(path);
    law_position_is_the_first(parts, "chats"@);
    law_position_is_the_first(parts, "acp-sessions"@);
    law_position_is_the_first(parts, "projects"@);
}

/// An override that is not empty names the roots; else the root is `.cursor` in
/// the home directory, and without a home directory there is an error.
pub proof fn law_override_comes_before_home(
    override_text: Option<Seq<char>>,
    home: Option<Seq<PartView>>,
)
    ensures
        ({
            let named = override_text is Some && override_text->0.len() > 0;
            &&& named ==> root_plan(override_text, home) == Ok::<PlanView, CursorError>(
                PlanView::Named(named_roots(override_text->0)),
            )
            &&& !named && home is Some ==> root_plan(override_text, home) == Ok::<
                PlanView,
                CursorError,
            >(PlanView::Home(home->0.push(PartView::Normal(encode_utf8(".cursor"@)))))
            &&& !named && home is None ==> root_plan(override_text, home) == Err::<
                PlanView,
                CursorError,
            >(CursorError::HomeNotSet)
        }),
{
}

/// The roots that an override names are what stands between its commas, without
/// surrounding white space and without what is blank.
pub proof fn law_override_is_split_at_its_commas(a: Seq<char>, b: Seq<char>)
    ensures
        named_roots(a.push(',') + b) == named_roots(a) + named_roots(b),
        !a.contains(',') && trimmed(a).len() > 0 ==> named_roots(a) == seq![trimmed(a)],
        !a.contains(',') && trimmed(a).len() == 0 ==> named_roots(a).len() == 0,
{
    crate::text::law_pieces_of_joined_text(a, b, ',');
    lemma_nonblank_append(pieces(a, ','), pieces(b, ','));
    if !a.contains(',') {
        crate::field_laws::law_text_without_separator_is_one_piece(a, ',');
        let one = seq![a];
        assert(one.drop_last() =~= Seq::empty());
        assert(one.last() == a);
        assert(nonblank_pieces(Seq::empty()) =~= Seq::empty());
        if trimmed(a).len() > 0 {
            assert(named_roots(a) =~= seq![trimmed(a)]);
        }
    }
}

proof fn lemma_nonblank_append(a: Seq<Seq<char>>, b: Seq<Seq<char>>)
    ensures
        nonblank_pieces(a + b) == nonblank_pieces(a) + nonblank_pieces(b),
    decreases b.len(),
{
    if b.len() == 0 {
        assert(a + b =~= a);
        assert(nonblank_pieces(a) + Seq::<Seq<char>>::empty() =~= nonblank_pieces(a));
    } else {
        lemma_nonblank_append(a, b.drop_last());
        assert((a + b).drop_last() =~= a + b.drop_last());
        assert((a + b).last() == b.last());
        assert(nonblank_pieces(a + b) =~= nonblank_pieces(a) + nonblank_pieces(b));
    }
}

/// The roots are the probed paths that are directories, each once, and what is
/// probed later changes nothing in those before.
pub proof fn law_roots_are_the_directories(probes: Seq<RootProbe>, path: Seq<PartView>)
    ensures
        usable_roots(probes).contains(path) <==> exists|i: int|
            0 <= i < probes.len() && (#[trigger] probes[i]).is_dir && probes[i].path@ == path,
        usable_roots(probes).no_duplicates(),
        forall|n: int|
            0 <= n <= probes.len() ==> usable_roots(#[trigger] probes.take(n)).is_prefix_of(
                usable_roots(probes),
            ),
    decreases probes.len(),
{
    let roots = usable_roots(probes);
    if probes.len() == 0 {
        assert(probes.take(0) =~= probes);
    } else {
        let rest = probes.drop_last();
        let earlier = usable_roots(rest);
        let last = probes.len() - 1;
        law_roots_are_the_directories(rest, path);
        assert(earlier.is_prefix_of(roots)) by {
            assert(roots.take(earlier.len() as int) =~= earlier);
        }
        assert forall|n: int| 0 <= n <= probes.len() implies usable_roots(
            #[trigger] probes.take(n),
        ).is_prefix_of(roots) by {
            if n < probes.len() {
                assert(probes.take(n) =~= rest.take(n));
                let some = usable_roots(rest.take(n));
                assert(some.is_prefix_of(earlier));
                assert(roots.take(some.len() as int) =~= earlier.take(some.len() as int));
            } else {
                assert(probes.take(n) =~= probes);
            }
        }
        if roots.contains(path) {
            let k = choose|k: int| 0 <= k < roots.len() && roots[k] == path;
            if k < earlier.len() {
                assert(earlier[k] == path);
                let i = choose|i: int|
                    0 <= i < rest.len() && (#[trigger] rest[i]).is_dir && rest[i].path@ == path;
                assert(probes[i] == rest[i]);
            } else {
                assert(probes[last].is_dir);
            }
        }
        if exists|i: int|
            0 <= i < probes.len() && (#[trigger] probes[i]).is_dir && probes[i].path@ == path {
            let i = choose|i: int|
                0 <= i < probes.len() && (#[trigger] probes[i]).is_dir && probes[i].path@ == path;
            if i < last {
                assert(rest[i] == probes[i]);
                let k = choose|k: int| 0 <= k < earlier.len() && earlier[k] == path;
                assert(roots[k] == path);
            } else if earlier.contains(path) {
                let k = choose|k: int| 0 <= k < earlier.len() && earlier[k] == path;
                assert(roots[k] == path);
            } else {
                assert(roots[earlier.len() as int] == path);
            }
        }
    }
}

proof fn lemma_named_files_prefix(
    folder: Seq<PartView>,
    a: Seq<Node>,
    b: Seq<Node>,
    n: nat,
    name: Seq<char>,
)
    requires
        n <= a.len(),
    ensures
        named_files(folder, a + b, n, name) == named_files(folder, a, n, name),
    decreases n,
{
    if n > 0 {
        lemma_named_files_prefix(folder, a, b, (n - 1) as nat, name);
        assert((a + b)[n - 1] == a[n - 1]);
    }
}

proof fn lemma_named_files_append(
    folder: Seq<PartView>,
    a: Seq<Node>,
    b: Seq<Node>,
    n: nat,
    name: Seq<char>,
)
    requires
        n <= b.len(),
    ensures
        named_files(folder, a + b, a.len() + n, name) == named_files(folder, a, a.len(), name)
            + named_files(folder, b, n, name),
    decreases n,
{
    let first = named_files(folder, a, a.len(), name);
    if n == 0 {
        lemma_named_files_prefix(folder, a, b, a.len(), name);
        assert(first + Seq::<Seq<PartView>>::empty() =~= first);
    } else {
        lemma_named_files_append(folder, a, b, (n - 1) as nat, name);
        let node = b[n - 1];
        assert((a + b)[a.len() + n - 1] == node);
        let before = named_files(folder, b, (n - 1) as nat, name);
        let all = named_files(folder, b, n, name);
        let whole = named_files(folder, a + b, a.len() + n, name);
        let last = all.skip(before.len() as int);
        assert(all =~= before + last);
        assert(whole =~= first + before + last);
        assert(first + before + last =~= first + all);
    }
}

/// A folder is searched item by item. A file is found where it has the name, a
/// folder is searched in turn, and anything else is passed over.
pub proof fn law_folders_are_searched_item_by_item(
    folder: Seq<PartView>,
    a: Seq<Node>,
    b: Seq<Node>,
    name: Seq<char>,
)
    ensures
        files_in(folder, a + b, name) == files_in(folder, a, name) + files_in(folder, b, name),
        forall|node: Node|
            ({
                let found = #[trigger] files_in(folder, seq![node], name);
                let path = folder.push(PartView::Normal(node.name@));
                match node.kind {
                    NodeKind::File => if name_text(node.name@) == Some(name) {
                        found == seq![path]
                    } else {
                        found.len() == 0
                    },
                    NodeKind::Folder(items) => found == files_in(path, items@, name),
                    NodeKind::Other => found.len() == 0,
                }
            }),
{
    lemma_named_files_append(folder, a, b, b.len(), name);
    assert forall|node: Node|
        ({
            let found = #[trigger] files_in(folder, seq![node], name);
            let path = folder.push(PartView::Normal(node.name@));
            match node.kind {
                NodeKind::File => if name_text(node.name@) == Some(name) {
                    found == seq![path]
                } else {
                    found.len() == 0
                },
                NodeKind::Folder(items) => found == files_in(path, items@, name),
                NodeKind::Other => found.len() == 0,
            }
        }) by {
        let one = seq![node];
        let path = folder.push(PartView::Normal(node.name@));
        let none = Seq::<Seq<PartView>>::empty();
        assert(one[0] == node);
        assert(named_files(folder, one, 0, name) =~= none);
        match &node.kind {
            NodeKind::File => {
                assert(none + seq![path] =~= seq![path]);
                assert(none + none =~= none);
            },
            NodeKind::Folder(items) => {
                let inner = files_in(path, items@, name);
                assert(none + inner =~= inner);
            },
            NodeKind::Other => {
                assert(none + none =~= none);
            },
        }
    }
}

/// A name is a text where it is the UTF-8 of that text.
pub proof fn law_names_are_utf8(name: Seq<u8>)
    ensures
        valid_utf8(name) ==> name_text(name) == Some(decode_utf8(name)),
        !valid_utf8(name) ==> name_text(name) is None,
{
}

/// The session stores are the files `store.db` below `chats` and below
/// `acp-sessions` of each root, root by root.
pub proof fn law_session_stores_are_sought_in_each_root(a: Seq<RootListing>, b: Seq<RootListing>)
    ensures
        all_stores(a + b) == all_stores(a) + all_stores(b),
        forall|root: RootListing| #[trigger]
            all_stores(seq![root]) == files_in(
                root.path@.push(PartView::Normal(encode_utf8("chats"@))),
                root.chats@,
                "store.db"@,
            ) + files_in(
                root.path@.push(PartView::Normal(encode_utf8("acp-sessions"@))),
                root.acp_sessions@,
                "store.db"@,
            ),
    decreases b.len(),
{
    let first = all_stores(a);
    if b.len() == 0 {
        assert(a + b =~= a);
        assert(first + Seq::<Seq<PartView>>::empty() =~= first);
    } else {
        let rest = b.drop_last();
        law_session_stores_are_sought_in_each_root(a, rest);
        assert((a + b).drop_last() =~= a + rest);
        assert((a + b).last() == b.last());
        let before = all_stores(rest);
        let last = session_stores(b.last());
        assert(first + before + last =~= first + (before + last));
    }
    assert forall|root: RootListing| #[trigger] all_stores(seq![root]) == files_in(
        root.path@.push(PartView::Normal(encode_utf8("chats"@))),
        root.chats@,
        "store.db"@,
    ) + files_in(
        root.path@.push(PartView::Normal(encode_utf8("acp-sessions"@))),
        root.acp_sessions@,
        "store.db"@,
    ) by {
        let one = seq![root];
        assert(one.drop_last() =~= Seq::empty());
        assert(one.last() == root);
        assert(all_stores(Seq::empty()) =~= Seq::empty());
        let stores = session_stores(root);
        assert(Seq::<Seq<PartView>>::empty() + stores =~= stores);
    }
}

/// The files of the SDK are sought below `projects/<project>/sdk-agent-store`
/// of each root, project by project and root by root.
pub proof fn law_sdk_files_are_sought_in_each_project(
    a: Seq<RootListing>,
    b: Seq<RootListing>,
    path: Seq<PartView>,
    projects: Seq<Project>,
    more: Seq<Project>,
    name: Seq<char>,
)
    ensures
        all_sdk_files(a + b, name) == all_sdk_files(a, name) + all_sdk_files(b, name),
        forall|root: RootListing| #[trigger]
            all_sdk_files(seq![root], name) == sdk_files(root.path@, root.projects@, name),
        sdk_files(path, projects + more, name) == sdk_files(path, projects, name) + sdk_files(
            path,
            more,
            name,
        ),
        forall|project: Project|
            match project.sdk_store {
                Some(nodes) => #[trigger] sdk_files(path, seq![project], name) == files_in(
                    path.push(PartView::Normal(encode_utf8("projects"@))).push(
                        PartView::Normal(project.name@),
                    ).push(PartView::Normal(encode_utf8("sdk-agent-store"@))),
                    nodes@,
                    name,
                ),
                None => sdk_files(path, seq![project], name).len() == 0,
            },
{
    lemma_sdk_roots_append(a, b, name);
    lemma_sdk_projects_append(path, projects, more, name);
    let none = Seq::<Seq<PartView>>::empty();
    assert forall|root: RootListing| #[trigger] all_sdk_files(seq![root], name) == sdk_files(
        root.path@,
        root.projects@,
        name,
    ) by {
        let one = seq![root];
        assert(one.drop_last() =~= Seq::empty());
        assert(one.last() == root);
        assert(all_sdk_files(Seq::empty(), name) =~= none);
        let files = sdk_files(root.path@, root.projects@, name);
        assert(none + files =~= files);
    }
    assert forall|project: Project|
        match project.sdk_store {
            Some(nodes) => #[trigger] sdk_files(path, seq![project], name) == files_in(
                path.push(PartView::Normal(encode_utf8("projects"@))).push(
                    PartView::Normal(project.name@),
                ).push(PartView::Normal(encode_utf8("sdk-agent-store"@))),
                nodes@,
                name,
            ),
            None => sdk_files(path, seq![project], name).len() == 0,
        } by {
        let one = seq![project];
        assert(one.drop_last() =~= Seq::empty());
        assert(one.last() == project);
        assert(sdk_files(path, Seq::empty(), name) =~= none);
        match &project.sdk_store {
            Some(nodes) => {
                let files = files_in(sdk_store_path(path, project.name@), nodes@, name);
                assert(none + files =~= files);
            },
            None => {
                assert(none + none =~= none);
            },
        }
    }
}

proof fn lemma_sdk_roots_append(a: Seq<RootListing>, b: Seq<RootListing>, name: Seq<char>)
    ensures
        all_sdk_files(a + b, name) == all_sdk_files(a, name) + all_sdk_files(b, name),
    decreases b.len(),
{
    let first = all_sdk_files(a, name);
    if b.len() == 0 {
        assert(a + b =~= a);
        assert(first + Seq::<Seq<PartView>>::empty() =~= first);
    } else {
        let rest = b.drop_last();
        lemma_sdk_roots_append(a, rest, name);
        assert((a + b).drop_last() =~= a + rest);
        assert((a + b).last() == b.last());
        let before = all_sdk_files(rest, name);
        let last = sdk_files(b.last().path@, b.last().projects@, name);
        assert(first + before + last =~= first + (before + last));
    }
}

proof fn lemma_sdk_projects_append(
    path: Seq<PartView>,
    a: Seq<Project>,
    b: Seq<Project>,
    name: Seq<char>,
)
    ensures
        sdk_files(path, a + b, name) == sdk_files(path, a, name) + sdk_files(path, b, name),
    decreases b.len(),
{
    let first = sdk_files(path, a, name);
    if b.len() == 0 {
        assert(a + b =~= a);
        assert(first + Seq::<Seq<PartView>>::empty() =~= first);
    } else {
        let rest = b.drop_last();
        lemma_sdk_projects_append(path, a, rest, name);
        assert((a + b).drop_last() =~= a + rest);
        assert((a + b).last() == b.last());
        let before = sdk_files(path, rest, name);
        let all = sdk_files(path, b, name);
        let last = all.skip(before.len() as int);
        assert(all =~= before + last);
        assert(sdk_files(path, a + b, name) =~= first + before + last);
        assert(first + before + last =~= first + all);
    }
}

/// The stores of single agents are the files `store.db` below `agents` in the
/// folders of an `sdk-agent-store` that hold no `index.db`, folder by folder.
pub proof fn law_agent_stores_are_sought_where_there_is_no_catalog(
    folder: Seq<PartView>,
    a: Seq<Node>,
    b: Seq<Node>,
)
    ensures
        agent_stores(folder, a + b) == agent_stores(folder, a) + agent_stores(folder, b),
        forall|node: Node|
            match node.kind {
                NodeKind::Folder(items) => #[trigger] agent_stores(folder, seq![node]) == (
                if exists|i: int|
                    0 <= i < items@.len() && (#[trigger] items@[i]).kind is File && name_text(
                        items@[i].name@,
                    ) == Some("index.db"@) {
                    Seq::empty()
                } else {
                    stores_of_agents(folder.push(PartView::Normal(node.name@)), items@)
                }),
                _ => agent_stores(folder, seq![node]).len() == 0,
            },
        stores_of_agents(folder, a + b) == stores_of_agents(folder, a) + stores_of_agents(
            folder,
            b,
        ),
        forall|node: Node|
            match node.kind {
                NodeKind::Folder(items) => #[trigger] stores_of_agents(folder, seq![node]) == (
                if name_text(node.name@) == Some("agents"@) {
                    files_in(folder.push(PartView::Normal(node.name@)), items@, "store.db"@)
                } else {
                    Seq::empty()
                }),
                _ => stores_of_agents(folder, seq![node]).len() == 0,
            },
{
    lemma_agent_stores_append(folder, a, b);
    let none = Seq::<Seq<PartView>>::empty();
    assert forall|node: Node|
        match node.kind {
            NodeKind::Folder(items) => #[trigger] agent_stores(folder, seq![node]) == (if exists|
                i: int,
            |
                0 <= i < items@.len() && (#[trigger] items@[i]).kind is File && name_text(
                    items@[i].name@,
                ) == Some("index.db"@) {
                Seq::empty()
            } else {
                stores_of_agents(folder.push(PartView::Normal(node.name@)), items@)
            }),
            _ => agent_stores(folder, seq![node]).len() == 0,
        } by {
        let one = seq![node];
        assert(one.drop_last() =~= Seq::empty());
        assert(one.last() == node);
        assert(agent_stores(folder, Seq::empty()) =~= none);
        assert(none + none =~= none);
        match &node.kind {
            NodeKind::Folder(items) => {
                let stores = stores_of_agents(folder.push(PartView::Normal(node.name@)), items@);
                assert(none + stores =~= stores);
                assert(holds_file(items@, "index.db"@) == exists|i: int|
                    0 <= i < items@.len() && (#[trigger] items@[i]).kind is File && name_text(
                        items@[i].name@,
                    ) == Some("index.db"@));
            },
            _ => {},
        }
    }
    assert forall|node: Node|
        match node.kind {
            NodeKind::Folder(items) => #[trigger] stores_of_agents(folder, seq![node]) == (
            if name_text(node.name@) == Some("agents"@) {
                files_in(folder.push(PartView::Normal(node.name@)), items@, "store.db"@)
            } else {
                Seq::empty()
            }),
            _ => stores_of_agents(folder, seq![node]).len() == 0,
        } by {
        let one = seq![node];
        assert(one.drop_last() =~= Seq::empty());
        assert(one.last() == node);
        assert(stores_of_agents(folder, Seq::empty()) =~= none);
        assert(none + none =~= none);
        match &node.kind {
            NodeKind::Folder(items) => {
                let path = folder.push(PartView::Normal(node.name@));
                let files = files_in(path, items@, "store.db"@);
                assert(none + files =~= files);
            },
            _ => {},
        }
    }
}

proof fn lemma_agent_stores_append(folder: Seq<PartView>, a: Seq<Node>, b: Seq<Node>)
    ensures
        agent_stores(folder, a + b) == agent_stores(folder, a) + agent_stores(folder, b),
        stores_of_agents(folder, a + b) == stores_of_agents(folder, a) + stores_of_agents(
            folder,
            b,
        ),
    decreases b.len(),
{
    let first = agent_stores(folder, a);
    let first_agents = stores_of_agents(folder, a);
    if b.len() == 0 {
        assert(a + b =~= a);
        assert(first + Seq::<Seq<PartView>>::empty() =~= first);
        assert(first_agents + Seq::<Seq<PartView>>::empty() =~= first_agents);
    } else {
        let rest = b.drop_last();
        lemma_agent_stores_append(folder, a, rest);
        assert((a + b).drop_last() =~= a + rest);
        assert((a + b).last() == b.last());
        let before = agent_stores(folder, rest);
        let all = agent_stores(folder, b);
        let last = all.skip(before.len() as int);
        assert(all =~= before + last);
        assert(agent_stores(folder, a + b) =~= first + before + last);
        assert(first + before + last =~= first + all);
        let agents_before = stores_of_agents(folder, rest);
        let agents = stores_of_agents(folder, b);
        let agents_last = agents.skip(agents_before.len() as int);
        assert(agents =~= agents_before + agents_last);
        assert(stores_of_agents(folder, a + b) =~= first_agents + agents_before + agents_last);
        assert(first_agents + agents_before + agents_last =~= first_agents + agents);
    }
}

/// The stores of single agents are sought in the `sdk-agent-store` of each
/// project of each root.
pub proof fn law_agent_stores_are_sought_in_each_project(
    roots: Seq<RootListing>,
    k: int,
    p: int,
    i: int,
)
    requires
        0 <= k < roots.len(),
        0 <= p < roots[k].projects@.len(),
        roots[k].projects@[p].sdk_store is Some,
        0 <= i < agent_stores(
            roots[k].path@.push(PartView::Normal(encode_utf8("projects"@))).push(
                PartView::Normal(roots[k].projects@[p].name@),
            ).push(PartView::Normal(encode_utf8("sdk-agent-store"@))),
            roots[k].projects@[p].sdk_store->0@,
        ).len(),
    ensures
        all_agent_stores(roots).contains(
            agent_stores(
                roots[k].path@.push(PartView::Normal(encode_utf8("projects"@))).push(
                    PartView::Normal(roots[k].projects@[p].name@),
                ).push(PartView::Normal(encode_utf8("sdk-agent-store"@))),
                roots[k].projects@[p].sdk_store->0@,
            )[i],
        ),
    decreases roots.len(),
{
    let rest = roots.drop_last();
    let before = all_agent_stores(rest);
    let all = all_agent_stores(roots);
    let folder = sdk_store_path(roots[k].path@, roots[k].projects@[p].name@);
    let path = agent_stores(folder, roots[k].projects@[p].sdk_store->0@)[i];
    if k < roots.len() - 1 {
        assert(rest[k] == roots[k]);
        law_agent_stores_are_sought_in_each_project(rest, k, p, i);
        let q = choose|q: int| 0 <= q < before.len() && before[q] == path;
        assert(all[q] == path);
    } else {
        lemma_project_is_searched(roots[k].path@, roots[k].projects@, p, i);
        let here = project_agent_stores(roots[k].path@, roots[k].projects@);
        let q = choose|q: int| 0 <= q < here.len() && here[q] == path;
        assert(all[before.len() + q] == path);
    }
}

proof fn lemma_project_is_searched(
    root: Seq<PartView>,
    projects: Seq<Project>,
    p: int,
    i: int,
)
    requires
        0 <= p < projects.len(),
        projects[p].sdk_store is Some,
        0 <= i < agent_stores(
            sdk_store_path(root, projects[p].name@),
            projects[p].sdk_store->0@,
        ).len(),
    ensures
        project_agent_stores(root, projects).contains(
            agent_stores(sdk_store_path(root, projects[p].name@), projects[p].sdk_store->0@)[i],
        ),
    decreases projects.len(),
{
    let rest = projects.drop_last();
    let before = project_agent_stores(root, rest);
    let all = project_agent_stores(root, projects);
    let path = agent_stores(
        sdk_store_path(root, projects[p].name@),
        projects[p].sdk_store->0@,
    )[i];
    if p < projects.len() - 1 {
        assert(rest[p] == projects[p]);
        lemma_project_is_searched(root, rest, p, i);
        let q = choose|q: int| 0 <= q < before.len() && before[q] == path;
        assert(all[q] == path);
    } else {
        assert(all[before.len() + i] == path);
    }
}

/// Stores are the session stores and the stores of single agents; an index is
/// the file `index.db` of the SDK, runs are its `runs.ndjson`, and its event log
/// is `run_events.ndjson`.
pub proof fn law_files_are_told_by_their_names(roots: Seq<RootListing>)
    ensures
        found_dbs(roots, CursorDbKind::Store) == all_stores(roots) + all_agent_stores(roots),
        found_dbs(roots, CursorDbKind::Index) == all_sdk_files(roots, "index.db"@),
        found_ndjson(roots, CursorNdjsonKind::Runs) == all_sdk_files(roots, "runs.ndjson"@),
        found_ndjson(roots, CursorNdjsonKind::Events) == all_sdk_files(
            roots,
            "run_events.ndjson"@,
        ),
{
}

/// There is data exactly where one of these files is found.
pub proof fn law_data_is_any_file(roots: Seq<RootListing>)
    ensures
        any_source(roots) <==> all_stores(roots).len() + all_agent_stores(roots).len()
            + all_sdk_files(roots, "index.db"@).len() + all_sdk_files(
            roots,
            "runs.ndjson"@,
        ).len() + all_sdk_files(roots, "run_events.ndjson"@).len() > 0,
{
}

/// The databases that are listed are those that are found, each once and with
/// its kind, in the order of their paths.
pub proof fn law_listed_databases_are_those_found(
    roots: Seq<RootListing>,
    dbs: Seq<DbView>,
    i: int,
    j: int,
    path: Seq<PartView>,
    kind: CursorDbKind,
)
    requires
        lists_dbs(roots, dbs),
    ensures
        0 <= i < dbs.len() ==> found_dbs(roots, dbs[i].kind).contains(dbs[i].path),
        found_dbs(roots, kind).contains(path) ==> exists|k: int|
            0 <= k < dbs.len() && (#[trigger] dbs[k]).path == path && dbs[k].kind == kind,
        0 <= i < j < dbs.len() ==> path_le(dbs[i].path, dbs[j].path) && dbs[i].path
            != dbs[j].path,
{
    if 0 <= i < dbs.len() {
        assert(dbs[i] == DbView { path: dbs[i].path, kind: dbs[i].kind });
        assert(dbs.contains(DbView { path: dbs[i].path, kind: dbs[i].kind }));
    }
    if found_dbs(roots, kind).contains(path) {
        assert(dbs.contains(DbView { path, kind }));
        let k = choose|k: int| 0 <= k < dbs.len() && dbs[k] == (DbView { path, kind });
        assert(dbs[k].path == path);
    }
    if 0 <= i < j < dbs.len() {
        assert(db_paths(dbs)[i] == dbs[i].path);
        assert(db_paths(dbs)[j] == dbs[j].path);
    }
}

/// The files of JSON lines that are listed are those that are found, each once
/// and with its kind, in the order of their paths.
pub proof fn law_listed_lines_are_those_found(
    roots: Seq<RootListing>,
    ndjson: Seq<NdjsonView>,
    i: int,
    j: int,
    path: Seq<PartView>,
    kind: CursorNdjsonKind,
)
    requires
        lists_ndjson(roots, ndjson),
    ensures
        0 <= i < ndjson.len() ==> found_ndjson(roots, ndjson[i].kind).contains(ndjson[i].path),
        found_ndjson(roots, kind).contains(path) ==> exists|k: int|
            0 <= k < ndjson.len() && (#[trigger] ndjson[k]).path == path && ndjson[k].kind == kind,
        0 <= i < j < ndjson.len() ==> path_le(ndjson[i].path, ndjson[j].path) && ndjson[i].path
            != ndjson[j].path,
{
    if 0 <= i < ndjson.len() {
        assert(ndjson[i] == NdjsonView { path: ndjson[i].path, kind: ndjson[i].kind });
        assert(ndjson.contains(NdjsonView { path: ndjson[i].path, kind: ndjson[i].kind }));
    }
    if found_ndjson(roots, kind).contains(path) {
        assert(ndjson.contains(NdjsonView { path, kind }));
        let k = choose|k: int| 0 <= k < ndjson.len() && ndjson[k] == (NdjsonView { path, kind });
        assert(ndjson[k].path == path);
    }
    if 0 <= i < j < ndjson.len() {
        assert(ndjson_paths(ndjson)[i] == ndjson[i].path);
        assert(ndjson_paths(ndjson)[j] == ndjson[j].path);
    }
}

/// Sequences are ordered by the first place where they differ, and one that
/// ends there comes first.
pub proof fn law_the_first_difference_orders<T>(
    le: spec_fn(T, T) -> bool,
    common: Seq<T>,
    x: T,
    y: T,
    a: Seq<T>,
    b: Seq<T>,
)
    requires
        x != y,
    ensures
        lex_le(le, common + seq![x] + a, common + seq![y] + b) == le(x, y),
        lex_le(le, common, common + b),
        !lex_le(le, common + seq![x] + a, common),
    decreases common.len(),
{
    let left = common + seq![x] + a;
    let right = common + seq![y] + b;
    if common.len() == 0 {
        assert(left[0] == x);
        assert(right[0] == y);
    } else {
        let rest = common.skip(1);
        assert(left[0] == common[0]);
        assert(right[0] == common[0]);
        assert(left.skip(1) =~= rest + seq![x] + a);
        assert(right.skip(1) =~= rest + seq![y] + b);
        assert((common + b).skip(1) =~= rest + b);
        assert((common + b)[0] == common[0]);
        law_the_first_difference_orders(le, rest, x, y, a, b);
    }
}

/// Texts are ordered by their characters, paths by their components, these by
/// their kinds and names, and names by their bytes.
pub proof fn law_characters_components_and_bytes_are_ordered(
    a: char,
    b: char,
    x: u8,
    y: u8,
    s: Seq<char>,
    t: Seq<char>,
    p: Seq<PartView>,
    q: Seq<PartView>,
    m: Seq<u8>,
    n: Seq<u8>,
)
    ensures
        text_le(s, t) == lex_le(char_le(), s, t),
        char_le()(a, b) <==> a as u32 <= b as u32,
        byte_le()(x, y) <==> x <= y,
        path_le(p, q) == lex_le(part_le(), p, q),
        part_le()(PartView::Normal(m), PartView::Normal(n)) == lex_le(byte_le(), m, n),
        part_le()(PartView::Prefix(m), PartView::Prefix(n)) == lex_le(byte_le(), m, n),
        part_le()(PartView::Prefix(m), PartView::Root),
        !part_le()(PartView::Root, PartView::Prefix(m)),
        part_le()(PartView::Root, PartView::Current),
        !part_le()(PartView::Current, PartView::Root),
        part_le()(PartView::Current, PartView::Parent),
        !part_le()(PartView::Parent, PartView::Current),
        part_le()(PartView::Parent, PartView::Normal(n)),
        !part_le()(PartView::Normal(n), PartView::Parent),
{
}

} // verus!
