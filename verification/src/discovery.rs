//! Finding the files below the roots that record usage.

use vstd::prelude::*;

use crate::path_list::{
    all_end_in, ends_in, flagged_paths, has_flagged, lemma_ends_append, merge_lists,
    strictly_ordered,
};
use crate::paths::{subfolder, with_name, CursorError};
use crate::source_path::{name_is, name_text, path_views, PartView, SourcePath};

verus! {

/// An item of a folder.
#[derive(Debug)]
pub struct Node {
    pub name: Vec<u8>,
    pub kind: NodeKind,
}

/// What an item of a folder is.
#[derive(Debug)]
pub enum NodeKind {
    File,
    Folder(Vec<Node>),
    Other,
}

/// The paths of the files with that name among the first `n` items of a folder
/// and in the folders below them.
pub open spec fn named_files(
    folder: Seq<PartView>,
    nodes: Seq<Node>,
    n: nat,
    name: Seq<char>,
) -> Seq<Seq<PartView>>
    decreases nodes, n,
{
    if n == 0 || n > nodes.len() {
        Seq::empty()
    } else {
        let node = nodes[n - 1];
        let path = folder.push(PartView::Normal(node.name@));
        named_files(folder, nodes, (n - 1) as nat, name) + match node.kind {
            NodeKind::File => if name_text(node.name@) == Some(name) {
                seq![path]
            } else {
                Seq::empty()
            },
            NodeKind::Folder(items) => named_files(path, items@, items@.len(), name),
            NodeKind::Other => Seq::empty(),
        }
    }
}

/// Collects the files with that name in a folder and in the folders below it.
pub fn collect_named_files(
    folder: &SourcePath,
    nodes: &Vec<Node>,
    file_name: &str,
    files: &mut Vec<SourcePath>,
)
    ensures
        path_views(final(files)@) == path_views(old(files)@) + named_files(
            folder@,
            nodes@,
            nodes@.len(),
            file_name@,
        ),
    decreases nodes,
{
    let ghost before = path_views(files@);
    let mut i: usize = 0;
    proof {
        assert(before + named_files(folder@, nodes@, 0, file_name@) =~= before);
    }
    while i < nodes.len()
        invariant
            i <= nodes@.len(),
            path_views(files@) == before + named_files(folder@, nodes@, i as nat, file_name@),
        decreases nodes@.len() - i,
    {
        let node = &nodes[i];
        let ghost so_far = path_views(files@);
        let ghost earlier = named_files(folder@, nodes@, i as nat, file_name@);
        match &node.kind {
            NodeKind::File => {
                if name_is(&node.name, file_name) {
                    let path = folder.join(&node.name);
                    let ghost view = path@;
                    files.push(path);
                    proof {
                        assert(path_views(files@) =~= so_far + seq![view]);
                    }
                } else {
                    proof {
                        assert(so_far =~= so_far + Seq::<Seq<PartView>>::empty());
                    }
                }
            },
            NodeKind::Folder(items) => {
                let path = folder.join(&node.name);
                collect_named_files(&path, items, file_name, files);
            },
            NodeKind::Other => {
                proof {
                    assert(so_far =~= so_far + Seq::<Seq<PartView>>::empty());
                }
            },
        }
        i += 1;
        proof {
            let added = match &node.kind {
                NodeKind::File => if name_text(node.name@) == Some(file_name@) {
                    seq![folder@.push(PartView::Normal(node.name@))]
                } else {
                    Seq::empty()
                },
                NodeKind::Folder(items) => named_files(
                    folder@.push(PartView::Normal(node.name@)),
                    items@,
                    items@.len(),
                    file_name@,
                ),
                NodeKind::Other => Seq::empty(),
            };
            assert(path_views(files@) == so_far + added);
            assert(named_files(folder@, nodes@, i as nat, file_name@) == earlier + added);
            assert(before + earlier + added =~= before + (earlier + added));
        }
    }
}

/// What a database holds.
#[derive(Clone, Copy, Debug, PartialEq, Eq, Structural)]
pub enum CursorDbKind {
    /// A `store.db` of the CLI or of ACP (`meta` and `blobs`).
    Store,
    /// The SDK catalog `index.db` (`agents`, `runs` and `run_events`).
    Index,
}

/// A database that records usage.
#[derive(Debug)]
pub struct CursorDbFile {
    pub path: SourcePath,
    pub kind: CursorDbKind,
}

/// What a file of JSON lines holds.
#[derive(Clone, Copy, Debug, PartialEq, Eq, Structural)]
pub enum CursorNdjsonKind {
    /// The runs of a catalog, `runs.ndjson`.
    Runs,
    /// The event log of a catalog, `run_events.ndjson`.
    Events,
}

/// A file of JSON lines that records usage.
#[derive(Debug)]
pub struct CursorNdjsonFile {
    pub path: SourcePath,
    pub kind: CursorNdjsonKind,
}

/// A folder of `projects`, and what its `sdk-agent-store` holds where it has
/// that folder.
#[derive(Debug)]
pub struct Project {
    pub name: Vec<u8>,
    pub sdk_store: Option<Vec<Node>>,
}

/// What the folders of a root hold. A folder that is missing or cannot be read
/// holds nothing.
#[derive(Debug)]
pub struct RootListing {
    pub path: SourcePath,
    pub chats: Vec<Node>,
    pub acp_sessions: Vec<Node>,
    pub projects: Vec<Project>,
}

/// The path of the `sdk-agent-store` of a project.
pub open spec fn sdk_store_path(root: Seq<PartView>, project: Seq<u8>) -> Seq<PartView> {
    with_name(with_name(root, "projects"@).push(PartView::Normal(project)), "sdk-agent-store"@)
}

/// The folder of a root that holds the sessions of the interactive CLI.
pub fn chats_folder(root: &SourcePath) -> (path: SourcePath)
    ensures
        path@ == with_name(root@, "chats"@),
{
    subfolder(root, "chats")
}

/// The folder of a root that holds the sessions of ACP.
pub fn acp_sessions_folder(root: &SourcePath) -> (path: SourcePath)
    ensures
        path@ == with_name(root@, "acp-sessions"@),
{
    subfolder(root, "acp-sessions")
}

/// The folder of a root that holds the projects.
pub fn projects_folder(root: &SourcePath) -> (path: SourcePath)
    ensures
        path@ == with_name(root@, "projects"@),
{
    subfolder(root, "projects")
}

/// The folder of a project that holds what the SDK stores.
pub fn sdk_store_folder(root: &SourcePath, project: &Vec<u8>) -> (path: SourcePath)
    ensures
        path@ == sdk_store_path(root@, project@),
{
    subfolder(&projects_folder(root).join(project), "sdk-agent-store")
}

/// The files with that name in a folder and in the folders below it.
pub open spec fn files_in(folder: Seq<PartView>, nodes: Seq<Node>, name: Seq<char>) -> Seq<
    Seq<PartView>,
> {
    named_files(folder, nodes, nodes.len(), name)
}

/// The session stores of a root.
pub open spec fn session_stores(root: RootListing) -> Seq<Seq<PartView>> {
    files_in(with_name(root.path@, "chats"@), root.chats@, "store.db"@) + files_in(
        with_name(root.path@, "acp-sessions"@),
        root.acp_sessions@,
        "store.db"@,
    )
}

/// The files with that name that the SDK stores for some projects.
pub open spec fn sdk_files(root: Seq<PartView>, projects: Seq<Project>, name: Seq<char>) -> Seq<
    Seq<PartView>,
>
    decreases projects.len(),
{
    if projects.len() == 0 {
        Seq::empty()
    } else {
        sdk_files(root, projects.drop_last(), name) + match projects.last().sdk_store {
            Some(nodes) => files_in(sdk_store_path(root, projects.last().name@), nodes@, name),
            None => Seq::empty(),
        }
    }
}

/// The session stores of some roots.
pub open spec fn all_stores(roots: Seq<RootListing>) -> Seq<Seq<PartView>>
    decreases roots.len(),
{
    if roots.len() == 0 {
        Seq::empty()
    } else {
        all_stores(roots.drop_last()) + session_stores(roots.last())
    }
}

/// The files with that name that the SDK stores below some roots.
pub open spec fn all_sdk_files(roots: Seq<RootListing>, name: Seq<char>) -> Seq<Seq<PartView>>
    decreases roots.len(),
{
    if roots.len() == 0 {
        Seq::empty()
    } else {
        all_sdk_files(roots.drop_last(), name) + sdk_files(
            roots.last().path@,
            roots.last().projects@,
            name,
        )
    }
}

/// Whether a folder directly holds a file with that name.
pub open spec fn holds_file(nodes: Seq<Node>, name: Seq<char>) -> bool {
    exists|i: int|
        0 <= i < nodes.len() && (#[trigger] nodes[i]).kind is File && name_text(nodes[i].name@)
            == Some(name)
}

/// The stores below the folder `agents` among some items of a folder.
pub open spec fn stores_of_agents(folder: Seq<PartView>, nodes: Seq<Node>) -> Seq<Seq<PartView>>
    decreases nodes.len(),
{
    if nodes.len() == 0 {
        Seq::empty()
    } else {
        let node = nodes.last();
        stores_of_agents(folder, nodes.drop_last()) + match node.kind {
            NodeKind::Folder(items) => if name_text(node.name@) == Some("agents"@) {
                files_in(folder.push(PartView::Normal(node.name@)), items@, "store.db"@)
            } else {
                Seq::empty()
            },
            _ => Seq::empty(),
        }
    }
}

/// The stores of single agents among some folders of an `sdk-agent-store`: a
/// folder that holds an `index.db` has its catalog in that, any other folder
/// has a store for each agent below `agents`.
pub open spec fn agent_stores(folder: Seq<PartView>, nodes: Seq<Node>) -> Seq<Seq<PartView>>
    decreases nodes.len(),
{
    if nodes.len() == 0 {
        Seq::empty()
    } else {
        let node = nodes.last();
        agent_stores(folder, nodes.drop_last()) + match node.kind {
            NodeKind::Folder(items) => if holds_file(items@, "index.db"@) {
                Seq::empty()
            } else {
                stores_of_agents(folder.push(PartView::Normal(node.name@)), items@)
            },
            _ => Seq::empty(),
        }
    }
}

/// The stores of single agents that the SDK stores for some projects.
pub open spec fn project_agent_stores(root: Seq<PartView>, projects: Seq<Project>) -> Seq<
    Seq<PartView>,
>
    decreases projects.len(),
{
    if projects.len() == 0 {
        Seq::empty()
    } else {
        project_agent_stores(root, projects.drop_last()) + match projects.last().sdk_store {
            Some(nodes) => agent_stores(sdk_store_path(root, projects.last().name@), nodes@),
            None => Seq::empty(),
        }
    }
}

/// The stores of single agents below some roots.
pub open spec fn all_agent_stores(roots: Seq<RootListing>) -> Seq<Seq<PartView>>
    decreases roots.len(),
{
    if roots.len() == 0 {
        Seq::empty()
    } else {
        all_agent_stores(roots.drop_last()) + project_agent_stores(
            roots.last().path@,
            roots.last().projects@,
        )
    }
}

/// Each file that is found lies in its folder, under the name that was sought.
pub proof fn law_files_lie_in_their_folder(
    folder: Seq<PartView>,
    nodes: Seq<Node>,
    n: nat,
    name: Seq<char>,
    i: int,
)
    requires
        0 <= i < named_files(folder, nodes, n, name).len(),
    ensures
        named_files(folder, nodes, n, name)[i].len() > folder.len(),
        named_files(folder, nodes, n, name)[i].take(folder.len() as int) == folder,
        named_files(folder, nodes, n, name)[i].last() matches PartView::Normal(last) && name_text(
            last,
        ) == Some(name),
    decreases nodes, n,
{
    let node = nodes[n - 1];
    let path = folder.push(PartView::Normal(node.name@));
    let earlier = named_files(folder, nodes, (n - 1) as nat, name);
    let all = named_files(folder, nodes, n, name);
    if i < earlier.len() {
        law_files_lie_in_their_folder(folder, nodes, (n - 1) as nat, name, i);
        assert(all[i] == earlier[i]);
    } else {
        match node.kind {
            NodeKind::File => {
                assert(all[i] == path);
                assert(path.take(folder.len() as int) =~= folder);
            },
            NodeKind::Folder(items) => {
                let inner = named_files(path, items@, items@.len(), name);
                assert(all[i] == inner[i - earlier.len()]);
                law_files_lie_in_their_folder(
                    path,
                    items@,
                    items@.len(),
                    name,
                    i - earlier.len(),
                );
                assert(all[i].take(folder.len() as int) =~= all[i].take(path.len() as int).take(
                    folder.len() as int,
                ));
                assert(path.take(folder.len() as int) =~= folder);
            },
            NodeKind::Other => {},
        }
    }
}

proof fn lemma_files_in_end(folder: Seq<PartView>, nodes: Seq<Node>, name: Seq<char>)
    ensures
        all_end_in(files_in(folder, nodes, name), name),
{
    assert forall|i: int| 0 <= i < files_in(folder, nodes, name).len() implies ends_in(
        #[trigger] files_in(folder, nodes, name)[i],
        name,
    ) by {
        law_files_lie_in_their_folder(folder, nodes, nodes.len(), name, i);
    }
}

proof fn lemma_sdk_files_end(root: Seq<PartView>, projects: Seq<Project>, name: Seq<char>)
    ensures
        all_end_in(sdk_files(root, projects, name), name),
    decreases projects.len(),
{
    if projects.len() > 0 {
        let rest = projects.drop_last();
        let folder = sdk_store_path(root, projects.last().name@);
        lemma_sdk_files_end(root, rest, name);
        match projects.last().sdk_store {
            Some(nodes) => {
                lemma_files_in_end(folder, nodes@, name);
                lemma_ends_append(
                    sdk_files(root, rest, name),
                    files_in(folder, nodes@, name),
                    name,
                );
            },
            None => {
                lemma_ends_append(sdk_files(root, rest, name), Seq::empty(), name);
            },
        }
    }
}

/// The session stores are named `store.db`.
pub proof fn law_stores_end_in_store_db(roots: Seq<RootListing>)
    ensures
        all_end_in(all_stores(roots), "store.db"@),
    decreases roots.len(),
{
    if roots.len() > 0 {
        let root = roots.last();
        let name = "store.db"@;
        let chats = with_name(root.path@, "chats"@);
        let acp = with_name(root.path@, "acp-sessions"@);
        law_stores_end_in_store_db(roots.drop_last());
        lemma_files_in_end(chats, root.chats@, name);
        lemma_files_in_end(acp, root.acp_sessions@, name);
        lemma_ends_append(
            files_in(chats, root.chats@, name),
            files_in(acp, root.acp_sessions@, name),
            name,
        );
        lemma_ends_append(all_stores(roots.drop_last()), session_stores(root), name);
    }
}

/// The files that the SDK stores are found under the name that was sought.
pub proof fn law_sdk_files_end_in_their_name(roots: Seq<RootListing>, name: Seq<char>)
    ensures
        all_end_in(all_sdk_files(roots, name), name),
    decreases roots.len(),
{
    if roots.len() > 0 {
        let root = roots.last();
        law_sdk_files_end_in_their_name(roots.drop_last(), name);
        lemma_sdk_files_end(root.path@, root.projects@, name);
        lemma_ends_append(
            all_sdk_files(roots.drop_last(), name),
            sdk_files(root.path@, root.projects@, name),
            name,
        );
    }
}

proof fn lemma_stores_of_agents_end(folder: Seq<PartView>, nodes: Seq<Node>)
    ensures
        all_end_in(stores_of_agents(folder, nodes), "store.db"@),
    decreases nodes.len(),
{
    if nodes.len() > 0 {
        let node = nodes.last();
        let before = stores_of_agents(folder, nodes.drop_last());
        lemma_stores_of_agents_end(folder, nodes.drop_last());
        lemma_ends_append(before, Seq::empty(), "store.db"@);
        match node.kind {
            NodeKind::Folder(items) => {
                let path = folder.push(PartView::Normal(node.name@));
                lemma_files_in_end(path, items@, "store.db"@);
                lemma_ends_append(before, files_in(path, items@, "store.db"@), "store.db"@);
            },
            _ => {},
        }
    }
}

proof fn lemma_agent_stores_end(folder: Seq<PartView>, nodes: Seq<Node>)
    ensures
        all_end_in(agent_stores(folder, nodes), "store.db"@),
    decreases nodes.len(),
{
    if nodes.len() > 0 {
        let node = nodes.last();
        let before = agent_stores(folder, nodes.drop_last());
        lemma_agent_stores_end(folder, nodes.drop_last());
        lemma_ends_append(before, Seq::empty(), "store.db"@);
        match node.kind {
            NodeKind::Folder(items) => {
                let path = folder.push(PartView::Normal(node.name@));
                lemma_stores_of_agents_end(path, items@);
                lemma_ends_append(before, stores_of_agents(path, items@), "store.db"@);
            },
            _ => {},
        }
    }
}

proof fn lemma_project_agent_stores_end(root: Seq<PartView>, projects: Seq<Project>)
    ensures
        all_end_in(project_agent_stores(root, projects), "store.db"@),
    decreases projects.len(),
{
    if projects.len() > 0 {
        let before = project_agent_stores(root, projects.drop_last());
        lemma_project_agent_stores_end(root, projects.drop_last());
        match projects.last().sdk_store {
            Some(nodes) => {
                let folder = sdk_store_path(root, projects.last().name@);
                lemma_agent_stores_end(folder, nodes@);
                lemma_ends_append(before, agent_stores(folder, nodes@), "store.db"@);
            },
            None => {
                lemma_ends_append(before, Seq::empty(), "store.db"@);
            },
        }
    }
}

/// The stores of single agents are named `store.db`.
pub proof fn law_agent_stores_end_in_store_db(roots: Seq<RootListing>)
    ensures
        all_end_in(all_agent_stores(roots), "store.db"@),
    decreases roots.len(),
{
    if roots.len() > 0 {
        let root = roots.last();
        law_agent_stores_end_in_store_db(roots.drop_last());
        lemma_project_agent_stores_end(root.path@, root.projects@);
        lemma_ends_append(
            all_agent_stores(roots.drop_last()),
            project_agent_stores(root.path@, root.projects@),
            "store.db"@,
        );
    }
}

fn has_file(nodes: &Vec<Node>, name: &str) -> (yes: bool)
    ensures
        yes == holds_file(nodes@, name@),
{
    let mut i: usize = 0;
    while i < nodes.len()
        invariant
            i <= nodes@.len(),
            forall|j: int|
                0 <= j < i ==> !((#[trigger] nodes@[j]).kind is File && name_text(nodes@[j].name@)
                    == Some(name@)),
        decreases nodes@.len() - i,
    {
        let is_file = match &nodes[i].kind {
            NodeKind::File => true,
            _ => false,
        };
        if is_file && name_is(&nodes[i].name, name) {
            proof {
                assert(nodes@[i as int].kind is File);
            }
            return true;
        }
        i += 1;
    }
    false
}

/// Collects the stores below the folder `agents` of a folder.
fn collect_stores_of_agents(folder: &SourcePath, nodes: &Vec<Node>, files: &mut Vec<SourcePath>)
    ensures
        path_views(final(files)@) == path_views(old(files)@) + stores_of_agents(folder@, nodes@),
{
    let ghost before = path_views(files@);
    let mut i: usize = 0;
    proof {
        assert(nodes@.take(0) =~= Seq::empty());
        assert(before + Seq::<Seq<PartView>>::empty() =~= before);
    }
    while i < nodes.len()
        invariant
            i <= nodes@.len(),
            path_views(files@) == before + stores_of_agents(folder@, nodes@.take(i as int)),
        decreases nodes@.len() - i,
    {
        let node = &nodes[i];
        let ghost earlier = stores_of_agents(folder@, nodes@.take(i as int));
        proof {
            assert(nodes@.take(i + 1).drop_last() =~= nodes@.take(i as int));
            assert(nodes@.take(i + 1).last() == nodes@[i as int]);
            assert(earlier + Seq::<Seq<PartView>>::empty() =~= earlier);
        }
        match &node.kind {
            NodeKind::Folder(items) => {
                if name_is(&node.name, "agents") {
                    let path = folder.join(&node.name);
                    collect_named_files(&path, items, "store.db", files);
                    proof {
                        let added = files_in(path@, items@, "store.db"@);
                        assert(before + earlier + added =~= before + (earlier + added));
                    }
                }
            },
            _ => {},
        }
        i += 1;
    }
    proof {
        assert(nodes@.take(i as int) =~= nodes@);
    }
}

/// Collects the stores of single agents from an `sdk-agent-store`.
fn collect_agent_stores(folder: &SourcePath, nodes: &Vec<Node>, files: &mut Vec<SourcePath>)
    ensures
        path_views(final(files)@) == path_views(old(files)@) + agent_stores(folder@, nodes@),
{
    let ghost before = path_views(files@);
    let mut i: usize = 0;
    proof {
        assert(nodes@.take(0) =~= Seq::empty());
        assert(before + Seq::<Seq<PartView>>::empty() =~= before);
    }
    while i < nodes.len()
        invariant
            i <= nodes@.len(),
            path_views(files@) == before + agent_stores(folder@, nodes@.take(i as int)),
        decreases nodes@.len() - i,
    {
        let node = &nodes[i];
        let ghost earlier = agent_stores(folder@, nodes@.take(i as int));
        proof {
            assert(nodes@.take(i + 1).drop_last() =~= nodes@.take(i as int));
            assert(nodes@.take(i + 1).last() == nodes@[i as int]);
            assert(earlier + Seq::<Seq<PartView>>::empty() =~= earlier);
        }
        match &node.kind {
            NodeKind::Folder(items) => {
                if !has_file(items, "index.db") {
                    let path = folder.join(&node.name);
                    collect_stores_of_agents(&path, items, files);
                    proof {
                        let added = stores_of_agents(path@, items@);
                        assert(before + earlier + added =~= before + (earlier + added));
                    }
                }
            },
            _ => {},
        }
        i += 1;
    }
    proof {
        assert(nodes@.take(i as int) =~= nodes@);
    }
}

/// Collects the files with that name that the SDK stores for projects.
fn collect_sdk_files(
    root: &SourcePath,
    projects: &Vec<Project>,
    file_name: &str,
    files: &mut Vec<SourcePath>,
)
    ensures
        path_views(final(files)@) == path_views(old(files)@) + sdk_files(
            root@,
            projects@,
            file_name@,
        ),
{
    let ghost before = path_views(files@);
    let mut i: usize = 0;
    proof {
        assert(projects@.take(0) =~= Seq::empty());
        assert(before + Seq::<Seq<PartView>>::empty() =~= before);
    }
    while i < projects.len()
        invariant
            i <= projects@.len(),
            path_views(files@) == before + sdk_files(
                root@,
                projects@.take(i as int),
                file_name@,
            ),
        decreases projects@.len() - i,
    {
        let project = &projects[i];
        let ghost earlier = sdk_files(root@, projects@.take(i as int), file_name@);
        proof {
            assert(projects@.take(i + 1).drop_last() =~= projects@.take(i as int));
            assert(projects@.take(i + 1).last() == projects@[i as int]);
            assert(earlier + Seq::<Seq<PartView>>::empty() =~= earlier);
        }
        match &project.sdk_store {
            Some(nodes) => {
                let folder = sdk_store_folder(root, &project.name);
                collect_named_files(&folder, nodes, file_name, files);
                proof {
                    let added = files_in(folder@, nodes@, file_name@);
                    assert(before + earlier + added =~= before + (earlier + added));
                }
            },
            None => {},
        }
        i += 1;
    }
    proof {
        assert(projects@.take(i as int) =~= projects@);
    }
}

/// Collects the stores of single agents that the SDK stores for projects.
fn collect_project_agent_stores(
    root: &SourcePath,
    projects: &Vec<Project>,
    files: &mut Vec<SourcePath>,
)
    ensures
        path_views(final(files)@) == path_views(old(files)@) + project_agent_stores(
            root@,
            projects@,
        ),
{
    let ghost before = path_views(files@);
    let mut i: usize = 0;
    proof {
        assert(projects@.take(0) =~= Seq::empty());
        assert(before + Seq::<Seq<PartView>>::empty() =~= before);
    }
    while i < projects.len()
        invariant
            i <= projects@.len(),
            path_views(files@) == before + project_agent_stores(
                root@,
                projects@.take(i as int),
            ),
        decreases projects@.len() - i,
    {
        let project = &projects[i];
        let ghost earlier = project_agent_stores(root@, projects@.take(i as int));
        proof {
            assert(projects@.take(i + 1).drop_last() =~= projects@.take(i as int));
            assert(projects@.take(i + 1).last() == projects@[i as int]);
            assert(earlier + Seq::<Seq<PartView>>::empty() =~= earlier);
        }
        match &project.sdk_store {
            Some(nodes) => {
                let folder = sdk_store_folder(root, &project.name);
                collect_agent_stores(&folder, nodes, files);
                proof {
                    let added = agent_stores(folder@, nodes@);
                    assert(before + earlier + added =~= before + (earlier + added));
                }
            },
            None => {},
        }
        i += 1;
    }
    proof {
        assert(projects@.take(i as int) =~= projects@);
    }
}

/// The paths that are found, by what the files hold.
struct Found {
    stores: Vec<SourcePath>,
    agents: Vec<SourcePath>,
    indexes: Vec<SourcePath>,
    runs: Vec<SourcePath>,
    events: Vec<SourcePath>,
}

/// Collects what the SDK stores for projects: catalogs, stores of single
/// agents, and the JSON lines of runs and of events.
fn collect_sdk_stores(root: &SourcePath, projects: &Vec<Project>, found: &mut Found)
    ensures
        final(found).stores@ == old(found).stores@,
        path_views(final(found).agents@) == path_views(old(found).agents@) + project_agent_stores(
            root@,
            projects@,
        ),
        path_views(final(found).indexes@) == path_views(old(found).indexes@) + sdk_files(
            root@,
            projects@,
            "index.db"@,
        ),
        path_views(final(found).runs@) == path_views(old(found).runs@) + sdk_files(
            root@,
            projects@,
            "runs.ndjson"@,
        ),
        path_views(final(found).events@) == path_views(old(found).events@) + sdk_files(
            root@,
            projects@,
            "run_events.ndjson"@,
        ),
{
    collect_project_agent_stores(root, projects, &mut found.agents);
    collect_sdk_files(root, projects, "index.db", &mut found.indexes);
    collect_sdk_files(root, projects, "runs.ndjson", &mut found.runs);
    collect_sdk_files(root, projects, "run_events.ndjson", &mut found.events);
}

/// The mathematical view of a database file.
#[verifier::ext_equal]
pub struct DbView {
    pub path: Seq<PartView>,
    pub kind: CursorDbKind,
}

impl View for CursorDbFile {
    type V = DbView;

    open spec fn view(&self) -> DbView {
        DbView { path: self.path@, kind: self.kind }
    }
}

/// The mathematical view of a file of JSON lines.
#[verifier::ext_equal]
pub struct NdjsonView {
    pub path: Seq<PartView>,
    pub kind: CursorNdjsonKind,
}

impl View for CursorNdjsonFile {
    type V = NdjsonView;

    open spec fn view(&self) -> NdjsonView {
        NdjsonView { path: self.path@, kind: self.kind }
    }
}

/// The views of a list of databases.
pub open spec fn db_views(list: Seq<CursorDbFile>) -> Seq<DbView> {
    Seq::new(list.len(), |i: int| list[i]@)
}

/// The paths of a list of databases.
pub open spec fn db_paths(list: Seq<DbView>) -> Seq<Seq<PartView>> {
    Seq::new(list.len(), |i: int| list[i].path)
}

/// The views of a list of files of JSON lines.
pub open spec fn ndjson_views(list: Seq<CursorNdjsonFile>) -> Seq<NdjsonView> {
    Seq::new(list.len(), |i: int| list[i]@)
}

/// The paths of a list of files of JSON lines.
pub open spec fn ndjson_paths(list: Seq<NdjsonView>) -> Seq<Seq<PartView>> {
    Seq::new(list.len(), |i: int| list[i].path)
}

/// The paths of the databases of that kind below some roots.
pub open spec fn found_dbs(roots: Seq<RootListing>, kind: CursorDbKind) -> Seq<Seq<PartView>> {
    match kind {
        CursorDbKind::Store => all_stores(roots) + all_agent_stores(roots),
        CursorDbKind::Index => all_sdk_files(roots, "index.db"@),
    }
}

/// The paths of the files of JSON lines of that kind below some roots.
pub open spec fn found_ndjson(roots: Seq<RootListing>, kind: CursorNdjsonKind) -> Seq<
    Seq<PartView>,
> {
    match kind {
        CursorNdjsonKind::Runs => all_sdk_files(roots, "runs.ndjson"@),
        CursorNdjsonKind::Events => all_sdk_files(roots, "run_events.ndjson"@),
    }
}

/// Whether `dbs` lists the databases below some roots, in the order of their
/// paths, each once.
pub open spec fn lists_dbs(roots: Seq<RootListing>, dbs: Seq<DbView>) -> bool {
    &&& strictly_ordered(db_paths(dbs))
    &&& forall|path: Seq<PartView>, kind: CursorDbKind|
        #[trigger] dbs.contains(DbView { path, kind }) <==> found_dbs(roots, kind).contains(path)
}

/// Whether `ndjson` lists the files of JSON lines below some roots, in the
/// order of their paths, each once.
pub open spec fn lists_ndjson(roots: Seq<RootListing>, ndjson: Seq<NdjsonView>) -> bool {
    &&& strictly_ordered(ndjson_paths(ndjson))
    &&& forall|path: Seq<PartView>, kind: CursorNdjsonKind|
        #[trigger] ndjson.contains(NdjsonView { path, kind }) <==> found_ndjson(
            roots,
            kind,
        ).contains(path)
}

/// Lists the databases: session stores, stores of single agents and catalogs.
fn list_dbs(stores: Vec<SourcePath>, indexes: Vec<SourcePath>, Ghost(roots): Ghost<
    Seq<RootListing>,
>) -> (dbs: Vec<CursorDbFile>)
    requires
        path_views(stores@) == found_dbs(roots, CursorDbKind::Store),
        path_views(indexes@) == found_dbs(roots, CursorDbKind::Index),
    ensures
        lists_dbs(roots, db_views(dbs@)),
{
    proof {
        law_stores_end_in_store_db(roots);
        law_agent_stores_end_in_store_db(roots);
        lemma_ends_append(all_stores(roots), all_agent_stores(roots), "store.db"@);
        law_sdk_files_end_in_their_name(roots, "index.db"@);
        reveal_strlit("store.db");
        reveal_strlit("index.db");
        assert("store.db"@[0] != "index.db"@[0]);
    }
    let merged = merge_lists(stores, indexes, Ghost("store.db"@), Ghost("index.db"@));
    let ghost list = merged@;
    let mut dbs: Vec<CursorDbFile> = Vec::new();
    for item in it: merged
        invariant
            it.seq() == list,
            dbs@.len() == it.index(),
            forall|j: int|
                0 <= j < dbs@.len() ==> (#[trigger] dbs@[j]).path == list[j].0 && (dbs@[j].kind
                    == CursorDbKind::Index <==> list[j].1),
    {
        let (path, flag) = item;
        let kind = if flag {
            CursorDbKind::Index
        } else {
            CursorDbKind::Store
        };
        dbs.push(CursorDbFile { path, kind });
    }
    proof {
        let views = db_views(dbs@);
        assert(db_paths(views) =~= flagged_paths(list));
        assert forall|path: Seq<PartView>, kind: CursorDbKind|
            #[trigger] views.contains(DbView { path, kind }) <==> found_dbs(
                roots,
                kind,
            ).contains(path) by {
            let flag = kind == CursorDbKind::Index;
            assert(has_flagged(list, path, flag) <==> found_dbs(roots, kind).contains(path));
            if views.contains(DbView { path, kind }) {
                let i = choose|i: int|
                    0 <= i < views.len() && views[i] == (DbView { path, kind });
                assert(dbs@[i]@ == views[i]);
                assert(list[i].0@ == path && list[i].1 == flag);
            }
            if has_flagged(list, path, flag) {
                let i = choose|i: int|
                    0 <= i < list.len() && (#[trigger] list[i]).0@ == path && list[i].1 == flag;
                assert(dbs@[i]@ == views[i]);
                assert(views[i] == (DbView { path, kind }));
            }
        }
    }
    dbs
}

/// Lists the files of JSON lines: runs and event logs.
fn list_ndjson(runs: Vec<SourcePath>, events: Vec<SourcePath>, Ghost(roots): Ghost<
    Seq<RootListing>,
>) -> (files: Vec<CursorNdjsonFile>)
    requires
        path_views(runs@) == found_ndjson(roots, CursorNdjsonKind::Runs),
        path_views(events@) == found_ndjson(roots, CursorNdjsonKind::Events),
    ensures
        lists_ndjson(roots, ndjson_views(files@)),
{
    proof {
        law_sdk_files_end_in_their_name(roots, "runs.ndjson"@);
        law_sdk_files_end_in_their_name(roots, "run_events.ndjson"@);
        reveal_strlit("runs.ndjson");
        reveal_strlit("run_events.ndjson");
        assert("runs.ndjson"@.len() != "run_events.ndjson"@.len());
    }
    let merged = merge_lists(runs, events, Ghost("runs.ndjson"@), Ghost("run_events.ndjson"@));
    let ghost list = merged@;
    let mut files: Vec<CursorNdjsonFile> = Vec::new();
    for item in it: merged
        invariant
            it.seq() == list,
            files@.len() == it.index(),
            forall|j: int|
                0 <= j < files@.len() ==> (#[trigger] files@[j]).path == list[j].0 && (
                files@[j].kind == CursorNdjsonKind::Events <==> list[j].1),
    {
        let (path, flag) = item;
        let kind = if flag {
            CursorNdjsonKind::Events
        } else {
            CursorNdjsonKind::Runs
        };
        files.push(CursorNdjsonFile { path, kind });
    }
    proof {
        let views = ndjson_views(files@);
        assert(ndjson_paths(views) =~= flagged_paths(list));
        assert forall|path: Seq<PartView>, kind: CursorNdjsonKind|
            #[trigger] views.contains(NdjsonView { path, kind }) <==> found_ndjson(
                roots,
                kind,
            ).contains(path) by {
            let flag = kind == CursorNdjsonKind::Events;
            assert(has_flagged(list, path, flag) <==> found_ndjson(roots, kind).contains(path));
            if views.contains(NdjsonView { path, kind }) {
                let i = choose|i: int|
                    0 <= i < views.len() && views[i] == (NdjsonView { path, kind });
                assert(files@[i]@ == views[i]);
                assert(list[i].0@ == path && list[i].1 == flag);
            }
            if has_flagged(list, path, flag) {
                let i = choose|i: int|
                    0 <= i < list.len() && (#[trigger] list[i]).0@ == path && list[i].1 == flag;
                assert(files@[i]@ == views[i]);
                assert(views[i] == (NdjsonView { path, kind }));
            }
        }
    }
    files
}

/// Finds the databases and the files of JSON lines below some roots: each
/// `store.db` below `chats` and `acp-sessions`; each `index.db`, `runs.ndjson`
/// and `run_events.ndjson` below the `sdk-agent-store` of a project; and each
/// `store.db` below `agents` in a folder of it that holds no `index.db`.
pub fn discover_source_files(roots: &Vec<RootListing>) -> (files: (
    Vec<CursorDbFile>,
    Vec<CursorNdjsonFile>,
))
    ensures
        lists_dbs(roots@, db_views(files.0@)),
        lists_ndjson(roots@, ndjson_views(files.1@)),
{
    let mut found = Found {
        stores: Vec::new(),
        agents: Vec::new(),
        indexes: Vec::new(),
        runs: Vec::new(),
        events: Vec::new(),
    };
    let mut i: usize = 0;
    proof {
        assert(roots@.take(0) =~= Seq::empty());
        assert(path_views(found.stores@) =~= Seq::<Seq<PartView>>::empty());
    }
    while i < roots.len()
        invariant
            i <= roots@.len(),
            path_views(found.stores@) == all_stores(roots@.take(i as int)),
            path_views(found.agents@) == all_agent_stores(roots@.take(i as int)),
            path_views(found.indexes@) == all_sdk_files(roots@.take(i as int), "index.db"@),
            path_views(found.runs@) == all_sdk_files(roots@.take(i as int), "runs.ndjson"@),
            path_views(found.events@) == all_sdk_files(
                roots@.take(i as int),
                "run_events.ndjson"@,
            ),
        decreases roots@.len() - i,
    {
        let root = &roots[i];
        let ghost stores_then = path_views(found.stores@);
        proof {
            assert(roots@.take(i + 1).drop_last() =~= roots@.take(i as int));
            assert(roots@.take(i + 1).last() == roots@[i as int]);
        }
        collect_named_files(
            &chats_folder(&root.path),
            &root.chats,
            "store.db",
            &mut found.stores,
        );
        collect_named_files(
            &acp_sessions_folder(&root.path),
            &root.acp_sessions,
            "store.db",
            &mut found.stores,
        );
        collect_sdk_stores(&root.path, &root.projects, &mut found);
        proof {
            let first = files_in(with_name(root.path@, "chats"@), root.chats@, "store.db"@);
            let second = files_in(
                with_name(root.path@, "acp-sessions"@),
                root.acp_sessions@,
                "store.db"@,
            );
            assert(stores_then + first + second =~= stores_then + (first + second));
        }
        i += 1;
    }
    let Found { stores, agents, indexes, runs, events } = found;
    let ghost session_paths = path_views(stores@);
    let ghost agent_paths = path_views(agents@);
    let mut all = stores;
    let mut more = agents;
    all.append(&mut more);
    proof {
        assert(roots@.take(i as int) =~= roots@);
        assert(path_views(all@) =~= session_paths + agent_paths);
    }
    (list_dbs(all, indexes, Ghost(roots@)), list_ndjson(runs, events, Ghost(roots@)))
}

/// Whether any file below some roots records usage.
pub open spec fn any_source(roots: Seq<RootListing>) -> bool {
    ||| found_dbs(roots, CursorDbKind::Store).len() > 0
    ||| found_dbs(roots, CursorDbKind::Index).len() > 0
    ||| found_ndjson(roots, CursorNdjsonKind::Runs).len() > 0
    ||| found_ndjson(roots, CursorNdjsonKind::Events).len() > 0
}

/// A database is listed where there is one of a kind, and only where there is
/// a source.
pub proof fn law_listed_dbs_are_data(roots: Seq<RootListing>, dbs: Seq<DbView>, kind: CursorDbKind)
    requires
        lists_dbs(roots, dbs),
    ensures
        found_dbs(roots, kind).len() > 0 ==> dbs.len() > 0,
        dbs.len() > 0 ==> any_source(roots),
{
    if found_dbs(roots, kind).len() > 0 {
        let path = found_dbs(roots, kind)[0];
        assert(found_dbs(roots, kind).contains(path));
        assert(dbs.contains(DbView { path, kind }));
    }
    if dbs.len() > 0 {
        let db = dbs[0];
        assert(dbs.contains(DbView { path: db.path, kind: db.kind }));
        assert(found_dbs(roots, db.kind).contains(db.path));
    }
}

/// A file of JSON lines is listed where there is one of a kind, and only where
/// there is a source.
pub proof fn law_listed_lines_are_data(
    roots: Seq<RootListing>,
    ndjson: Seq<NdjsonView>,
    kind: CursorNdjsonKind,
)
    requires
        lists_ndjson(roots, ndjson),
    ensures
        found_ndjson(roots, kind).len() > 0 ==> ndjson.len() > 0,
        ndjson.len() > 0 ==> any_source(roots),
{
    if found_ndjson(roots, kind).len() > 0 {
        let path = found_ndjson(roots, kind)[0];
        assert(found_ndjson(roots, kind).contains(path));
        assert(ndjson.contains(NdjsonView { path, kind }));
    }
    if ndjson.len() > 0 {
        let file = ndjson[0];
        assert(ndjson.contains(NdjsonView { path: file.path, kind: file.kind }));
        assert(found_ndjson(roots, file.kind).contains(file.path));
    }
}

/// Whether there is any file that may record usage; there is none where the
/// roots cannot be told.
pub fn has_data(roots: &Result<Vec<RootListing>, CursorError>) -> (yes: bool)
    ensures
        yes == (match roots {
            Ok(list) => any_source(list@),
            Err(_) => false,
        }),
{
    match roots {
        Ok(list) => {
            let (dbs, ndjson) = discover_source_files(list);
            proof {
                law_listed_dbs_are_data(list@, db_views(dbs@), CursorDbKind::Store);
                law_listed_dbs_are_data(list@, db_views(dbs@), CursorDbKind::Index);
                law_listed_lines_are_data(list@, ndjson_views(ndjson@), CursorNdjsonKind::Runs);
                law_listed_lines_are_data(list@, ndjson_views(ndjson@), CursorNdjsonKind::Events);
            }
            dbs.len() > 0 || ndjson.len() > 0
        },
        Err(_) => false,
    }
}

/// Whether a path lies below a folder.
pub open spec fn lies_below(path: Seq<PartView>, folder: Seq<PartView>) -> bool {
    path.len() > folder.len() && path.take(folder.len() as int) == folder
}

/// Each session store that is found lies below `chats` or `acp-sessions` of a
/// root: nothing else is searched for them.
pub proof fn law_stores_lie_below_their_folders(roots: Seq<RootListing>, i: int)
    requires
        0 <= i < all_stores(roots).len(),
    ensures
        exists|k: int|
            0 <= k < roots.len() && (lies_below(
                all_stores(roots)[i],
                with_name((#[trigger] roots[k]).path@, "chats"@),
            ) || lies_below(
                all_stores(roots)[i],
                with_name(roots[k].path@, "acp-sessions"@),
            )),
    decreases roots.len(),
{
    let rest = roots.drop_last();
    let before = all_stores(rest);
    let path = all_stores(roots)[i];
    if i < before.len() {
        law_stores_lie_below_their_folders(rest, i);
        let k = choose|k: int|
            0 <= k < rest.len() && (lies_below(
                before[i],
                with_name((#[trigger] rest[k]).path@, "chats"@),
            ) || lies_below(before[i], with_name(rest[k].path@, "acp-sessions"@)));
        assert(roots[k] == rest[k]);
        assert(path == before[i]);
    } else {
        let root = roots[roots.len() - 1];
        let chats = with_name(root.path@, "chats"@);
        let acp = with_name(root.path@, "acp-sessions"@);
        let first = files_in(chats, root.chats@, "store.db"@);
        let at = i - before.len();
        if at < first.len() {
            law_files_lie_in_their_folder(chats, root.chats@, root.chats@.len(), "store.db"@, at);
            assert(path == first[at]);
        } else {
            let nodes = root.acp_sessions@;
            law_files_lie_in_their_folder(
                acp,
                nodes,
                nodes.len(),
                "store.db"@,
                at - first.len(),
            );
            assert(path == files_in(acp, nodes, "store.db"@)[at - first.len()]);
        }
    }
}

proof fn lemma_project_files_lie_below(
    root: Seq<PartView>,
    projects: Seq<Project>,
    name: Seq<char>,
    i: int,
)
    requires
        0 <= i < sdk_files(root, projects, name).len(),
    ensures
        exists|k: int|
            0 <= k < projects.len() && lies_below(
                sdk_files(root, projects, name)[i],
                sdk_store_path(root, (#[trigger] projects[k]).name@),
            ),
    decreases projects.len(),
{
    let rest = projects.drop_last();
    let before = sdk_files(root, rest, name);
    let path = sdk_files(root, projects, name)[i];
    if i < before.len() {
        lemma_project_files_lie_below(root, rest, name, i);
        let k = choose|k: int|
            0 <= k < rest.len() && lies_below(
                before[i],
                sdk_store_path(root, (#[trigger] rest[k]).name@),
            );
        assert(projects[k] == rest[k]);
        assert(path == before[i]);
    } else {
        let project = projects[projects.len() - 1];
        match project.sdk_store {
            Some(nodes) => {
                let folder = sdk_store_path(root, project.name@);
                law_files_lie_in_their_folder(
                    folder,
                    nodes@,
                    nodes@.len(),
                    name,
                    i - before.len(),
                );
                assert(path == files_in(folder, nodes@, name)[i - before.len()]);
            },
            None => {},
        }
    }
}

/// Each file that is found for the SDK lies below the `sdk-agent-store` of a
/// project of a root: transcripts and other folders are not searched.
pub proof fn law_sdk_files_lie_below_their_folders(
    roots: Seq<RootListing>,
    name: Seq<char>,
    i: int,
)
    requires
        0 <= i < all_sdk_files(roots, name).len(),
    ensures
        exists|k: int, p: int|
            0 <= k < roots.len() && 0 <= p < roots[k].projects@.len() && lies_below(
                all_sdk_files(roots, name)[i],
                sdk_store_path(roots[k].path@, (#[trigger] roots[k].projects@[p]).name@),
            ),
    decreases roots.len(),
{
    let rest = roots.drop_last();
    let before = all_sdk_files(rest, name);
    let path = all_sdk_files(roots, name)[i];
    if i < before.len() {
        law_sdk_files_lie_below_their_folders(rest, name, i);
        let (k, p) = choose|k: int, p: int|
            0 <= k < rest.len() && 0 <= p < rest[k].projects@.len() && lies_below(
                before[i],
                sdk_store_path(rest[k].path@, (#[trigger] rest[k].projects@[p]).name@),
            );
        assert(roots[k] == rest[k]);
        assert(path == before[i]);
        assert(lies_below(
            path,
            sdk_store_path(roots[k].path@, roots[k].projects@[p].name@),
        ));
    } else {
        let k = roots.len() - 1;
        let root = roots[k];
        let files = sdk_files(root.path@, root.projects@, name);
        lemma_project_files_lie_below(root.path@, root.projects@, name, i - before.len());
        let p = choose|p: int|
            0 <= p < root.projects@.len() && lies_below(
                files[i - before.len()],
                sdk_store_path(root.path@, (#[trigger] root.projects@[p]).name@),
            );
        assert(path == files[i - before.len()]);
        assert(lies_below(
            path,
            sdk_store_path(roots[k].path@, roots[k].projects@[p].name@),
        ));
    }
}

proof fn lemma_stores_of_agents_lie_below(folder: Seq<PartView>, nodes: Seq<Node>, i: int)
    requires
        0 <= i < stores_of_agents(folder, nodes).len(),
    ensures
        lies_below(stores_of_agents(folder, nodes)[i], folder),
    decreases nodes.len(),
{
    let node = nodes.last();
    let before = stores_of_agents(folder, nodes.drop_last());
    let path = stores_of_agents(folder, nodes)[i];
    if i < before.len() {
        lemma_stores_of_agents_lie_below(folder, nodes.drop_last(), i);
        assert(path == before[i]);
    } else {
        match node.kind {
            NodeKind::Folder(items) => {
                let inner = folder.push(PartView::Normal(node.name@));
                law_files_lie_in_their_folder(
                    inner,
                    items@,
                    items@.len(),
                    "store.db"@,
                    i - before.len(),
                );
                assert(path == files_in(inner, items@, "store.db"@)[i - before.len()]);
                assert(inner.take(folder.len() as int) =~= folder);
                lemma_lies_deeper(path, inner, folder);
            },
            _ => {},
        }
    }
}

proof fn lemma_lies_deeper(path: Seq<PartView>, inner: Seq<PartView>, folder: Seq<PartView>)
    requires
        lies_below(path, inner),
        inner.len() > folder.len(),
        inner.take(folder.len() as int) == folder,
    ensures
        lies_below(path, folder),
{
    assert(path.take(folder.len() as int) =~= path.take(inner.len() as int).take(
        folder.len() as int,
    ));
}

proof fn lemma_agent_stores_lie_below(folder: Seq<PartView>, nodes: Seq<Node>, i: int)
    requires
        0 <= i < agent_stores(folder, nodes).len(),
    ensures
        lies_below(agent_stores(folder, nodes)[i], folder),
    decreases nodes.len(),
{
    let node = nodes.last();
    let before = agent_stores(folder, nodes.drop_last());
    let path = agent_stores(folder, nodes)[i];
    if i < before.len() {
        lemma_agent_stores_lie_below(folder, nodes.drop_last(), i);
        assert(path == before[i]);
    } else {
        match node.kind {
            NodeKind::Folder(items) => {
                let inner = folder.push(PartView::Normal(node.name@));
                lemma_stores_of_agents_lie_below(inner, items@, i - before.len());
                assert(path == stores_of_agents(inner, items@)[i - before.len()]);
                assert(inner.take(folder.len() as int) =~= folder);
                lemma_lies_deeper(path, inner, folder);
            },
            _ => {},
        }
    }
}

proof fn lemma_project_agent_stores_lie_below(
    root: Seq<PartView>,
    projects: Seq<Project>,
    i: int,
)
    requires
        0 <= i < project_agent_stores(root, projects).len(),
    ensures
        exists|k: int|
            0 <= k < projects.len() && lies_below(
                project_agent_stores(root, projects)[i],
                sdk_store_path(root, (#[trigger] projects[k]).name@),
            ),
    decreases projects.len(),
{
    let rest = projects.drop_last();
    let before = project_agent_stores(root, rest);
    let path = project_agent_stores(root, projects)[i];
    if i < before.len() {
        lemma_project_agent_stores_lie_below(root, rest, i);
        let k = choose|k: int|
            0 <= k < rest.len() && lies_below(
                before[i],
                sdk_store_path(root, (#[trigger] rest[k]).name@),
            );
        assert(projects[k] == rest[k]);
        assert(path == before[i]);
    } else {
        let project = projects[projects.len() - 1];
        match project.sdk_store {
            Some(nodes) => {
                let folder = sdk_store_path(root, project.name@);
                lemma_agent_stores_lie_below(folder, nodes@, i - before.len());
                assert(path == agent_stores(folder, nodes@)[i - before.len()]);
            },
            None => {},
        }
    }
}

/// Each store of a single agent that is found lies below the `sdk-agent-store`
/// of a project of a root.
pub proof fn law_agent_stores_lie_below_their_folders(roots: Seq<RootListing>, i: int)
    requires
        0 <= i < all_agent_stores(roots).len(),
    ensures
        exists|k: int, p: int|
            0 <= k < roots.len() && 0 <= p < roots[k].projects@.len() && lies_below(
                all_agent_stores(roots)[i],
                sdk_store_path(roots[k].path@, (#[trigger] roots[k].projects@[p]).name@),
            ),
    decreases roots.len(),
{
    let rest = roots.drop_last();
    let before = all_agent_stores(rest);
    let path = all_agent_stores(roots)[i];
    if i < before.len() {
        law_agent_stores_lie_below_their_folders(rest, i);
        let (k, p) = choose|k: int, p: int|
            0 <= k < rest.len() && 0 <= p < rest[k].projects@.len() && lies_below(
                before[i],
                sdk_store_path(rest[k].path@, (#[trigger] rest[k].projects@[p]).name@),
            );
        assert(roots[k] == rest[k]);
        assert(path == before[i]);
        assert(lies_below(path, sdk_store_path(roots[k].path@, roots[k].projects@[p].name@)));
    } else {
        let k = roots.len() - 1;
        let root = roots[k];
        let files = project_agent_stores(root.path@, root.projects@);
        lemma_project_agent_stores_lie_below(root.path@, root.projects@, i - before.len());
        let p = choose|p: int|
            0 <= p < root.projects@.len() && lies_below(
                files[i - before.len()],
                sdk_store_path(root.path@, (#[trigger] root.projects@[p]).name@),
            );
        assert(path == files[i - before.len()]);
        assert(lies_below(path, sdk_store_path(roots[k].path@, roots[k].projects@[p].name@)));
    }
}

/// The stores of single agents stand in for a catalog: a folder of the
/// `sdk-agent-store` that holds an `index.db` adds none.
pub proof fn law_catalog_replaces_agent_stores(
    folder: Seq<PartView>,
    nodes: Seq<Node>,
    node: Node,
)
    requires
        node.kind matches NodeKind::Folder(items) ==> holds_file(items@, "index.db"@),
    ensures
        agent_stores(folder, nodes.push(node)) == agent_stores(folder, nodes),
{
    assert(nodes.push(node).drop_last() =~= nodes);
    assert(agent_stores(folder, nodes) + Seq::<Seq<PartView>>::empty() =~= agent_stores(
        folder,
        nodes,
    ));
}

} // verus!
