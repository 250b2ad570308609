use std::path::{Component, Path};

use ccusage_adapter_cursor::discovery::{
    acp_sessions_folder, chats_folder, discover_source_files, has_data, projects_folder,
    sdk_store_folder, CursorDbKind, CursorNdjsonKind, Node, NodeKind, Project, RootListing,
};
use ccusage_adapter_cursor::paths::{
    identity_from_path, plan_roots, resolve_roots, CursorError, RootPlan, RootProbe,
};
use ccusage_adapter_cursor::source_path::{Part, SourcePath};

fn source_path(text: &str) -> SourcePath {
    let parts = Path::new(text)
        .components()
        .map(|component| match component {
            Component::Prefix(prefix) => {
                Part::Prefix(prefix.as_os_str().as_encoded_bytes().to_vec())
            }
            Component::RootDir => Part::Root,
            Component::CurDir => Part::Current,
            Component::ParentDir => Part::Parent,
            Component::Normal(name) => Part::Normal(name.as_encoded_bytes().to_vec()),
        })
        .collect();
    SourcePath { parts }
}

fn shown(path: &SourcePath) -> String {
    let mut text = String::new();
    for part in &path.parts {
        match part {
            Part::Root => {}
            Part::Current => text.push_str("/."),
            Part::Parent => text.push_str("/.."),
            Part::Prefix(name) | Part::Normal(name) => {
                text.push('/');
                text.push_str(&String::from_utf8_lossy(name));
            }
        }
    }
    text
}

fn insert(nodes: &mut Vec<Node>, parts: &[&str]) {
    let name = parts[0].as_bytes().to_vec();
    if parts.len() == 1 {
        nodes.push(Node {
            name,
            kind: NodeKind::File,
        });
        return;
    }
    let place = match nodes.iter().position(|node| node.name == name) {
        Some(place) => place,
        None => {
            nodes.push(Node {
                name,
                kind: NodeKind::Folder(Vec::new()),
            });
            nodes.len() - 1
        }
    };
    match &mut nodes[place].kind {
        NodeKind::Folder(items) => insert(items, &parts[1..]),
        other => panic!("{other:?}"),
    }
}

fn take_folder(nodes: &mut Vec<Node>, name: &str) -> Option<Vec<Node>> {
    let place = nodes
        .iter()
        .position(|node| node.name == name.as_bytes())?;
    match nodes.remove(place).kind {
        NodeKind::Folder(items) => Some(items),
        _ => None,
    }
}

/// What a root with those files looks like.
fn listing(root: &str, files: &[&str]) -> RootListing {
    let mut nodes = Vec::new();
    for file in files {
        let parts: Vec<&str> = file.split('/').collect();
        insert(&mut nodes, &parts);
    }
    let chats = take_folder(&mut nodes, "chats").unwrap_or_default();
    let acp_sessions = take_folder(&mut nodes, "acp-sessions").unwrap_or_default();
    let projects = take_folder(&mut nodes, "projects")
        .unwrap_or_default()
        .into_iter()
        .map(|node| Project {
            name: node.name,
            sdk_store: match node.kind {
                NodeKind::Folder(mut items) => take_folder(&mut items, "sdk-agent-store"),
                _ => None,
            },
        })
        .collect();
    RootListing {
        path: source_path(root),
        chats,
        acp_sessions,
        projects,
    }
}

#[test]
fn discovers_cli_store_acp_store_and_sdk_index() {
    let root = listing(
        "/home/me/.cursor",
        &[
            "chats/abc/sess-1/store.db",
            "acp-sessions/sess-2/store.db",
            "projects/my-app/sdk-agent-store/hash1/index.db",
            "projects/my-app/sdk-agent-store/hash1/runs.ndjson",
            "projects/my-app/agent-transcripts/sess-1/sess-1.jsonl",
            "plugins/ignore-me/store.db",
        ],
    );
    let (dbs, ndjson) = discover_source_files(&vec![root]);
    let kinds: Vec<_> = dbs.iter().map(|file| file.kind).collect();
    assert_eq!(
        kinds
            .iter()
            .filter(|kind| **kind == CursorDbKind::Store)
            .count(),
        2
    );
    assert_eq!(
        kinds
            .iter()
            .filter(|kind| **kind == CursorDbKind::Index)
            .count(),
        1
    );
    assert_eq!(ndjson.len(), 1);
    assert!(dbs
        .iter()
        .all(|file| !shown(&file.path).contains("plugins")));
    assert!(dbs
        .iter()
        .all(|file| !shown(&file.path).contains("agent-transcripts")));
    let paths: Vec<String> = dbs.iter().map(|file| shown(&file.path)).collect();
    assert_eq!(
        paths,
        [
            "/home/me/.cursor/acp-sessions/sess-2/store.db",
            "/home/me/.cursor/chats/abc/sess-1/store.db",
            "/home/me/.cursor/projects/my-app/sdk-agent-store/hash1/index.db",
        ]
    );
}

#[test]
fn empty_override_yields_no_roots() {
    let named = match plan_roots(Some("/fixture/missing"), None) {
        Ok(RootPlan::Named(named)) => named,
        other => panic!("{other:?}"),
    };
    assert_eq!(named, ["/fixture/missing"]);
    let probes = named
        .iter()
        .map(|name| RootProbe {
            path: source_path(name),
            is_dir: false,
        })
        .collect();
    let roots = resolve_roots(&probes);
    assert!(roots.is_empty());
    let (dbs, ndjson) = discover_source_files(&Vec::new());
    assert!(dbs.is_empty());
    assert!(ndjson.is_empty());
}

#[test]
fn comma_separated_homes_are_searched() {
    let named = match plan_roots(Some("/first,/second"), None) {
        Ok(RootPlan::Named(named)) => named,
        other => panic!("{other:?}"),
    };
    let probes = named
        .iter()
        .map(|name| RootProbe {
            path: source_path(name),
            is_dir: true,
        })
        .collect();
    let roots = resolve_roots(&probes);
    assert_eq!(roots.len(), 2);
    let listings = vec![
        listing(&shown(&roots[0]), &["chats/ws/sess-a/store.db"]),
        listing(&shown(&roots[1]), &["acp-sessions/sess-b/store.db"]),
    ];
    let (dbs, _) = discover_source_files(&listings);
    assert_eq!(dbs.len(), 2);
}

#[test]
fn identity_from_path_uses_chat_workspace_and_session() {
    let (session, project) =
        identity_from_path(&source_path("/home/me/.cursor/chats/my-app/sess-1/store.db"));
    assert_eq!(session, "sess-1");
    assert_eq!(project, "my-app");
}

#[test]
fn identity_from_path_uses_acp_session_folder() {
    let (session, project) =
        identity_from_path(&source_path("/home/me/.cursor/acp-sessions/sess-2/store.db"));
    assert_eq!(session, "sess-2");
    assert_eq!(project, "acp");
}

#[test]
fn identity_from_path_uses_sdk_project_slug() {
    let (session, project) = identity_from_path(&source_path(
        "/home/me/.cursor/projects/my-app/sdk-agent-store/hash1/index.db",
    ));
    assert_eq!(session, "hash1");
    assert_eq!(project, "my-app");
}

#[test]
fn identity_has_fallbacks() {
    let told = |text: &str| identity_from_path(&source_path(text));
    let pair = |a: &str, b: &str| (a.to_string(), b.to_string());
    assert_eq!(told("/x/chats"), pair("session", "cursor"));
    assert_eq!(told("/x/chats/ws"), pair("session", "ws"));
    assert_eq!(told("/x/acp-sessions"), pair("session", "acp"));
    assert_eq!(told("/x/projects"), pair("x", "cursor"));
    assert_eq!(told("/projects"), pair("sdk", "cursor"));
    assert_eq!(told("/some/where/index.db"), pair("where", "cursor"));
    assert_eq!(told("index.db"), pair("cursor", "cursor"));
    assert_eq!(told("../index.db"), pair("cursor", "cursor"));
    assert_eq!(told("/"), pair("cursor", "cursor"));
    assert_eq!(told(""), pair("cursor", "cursor"));
}

#[test]
fn names_that_are_not_utf8_are_passed_over() {
    let mut path = source_path("/x/chats");
    path.parts.push(Part::Normal(vec![0xff, 0xfe]));
    path.parts.push(Part::Normal(b"ws".to_vec()));
    path.parts.push(Part::Normal(b"sess".to_vec()));
    path.parts.push(Part::Normal(b"store.db".to_vec()));
    let (session, project) = identity_from_path(&path);
    assert_eq!(session, "sess");
    assert_eq!(project, "ws");
    let mut nameless = source_path("/x/projects/app");
    nameless.parts.push(Part::Normal(vec![0xff]));
    nameless.parts.push(Part::Normal(b"index.db".to_vec()));
    let (session, project) = identity_from_path(&nameless);
    assert_eq!(session, "sdk");
    assert_eq!(project, "app");
}

#[test]
fn roots_come_from_the_override_or_from_the_home() {
    let home = source_path("/home/me");
    match plan_roots(None, Some(&home)) {
        Ok(RootPlan::Home(path)) => assert_eq!(shown(&path), "/home/me/.cursor"),
        other => panic!("{other:?}"),
    }
    match plan_roots(Some(""), Some(&home)) {
        Ok(RootPlan::Home(path)) => assert_eq!(shown(&path), "/home/me/.cursor"),
        other => panic!("{other:?}"),
    }
    match plan_roots(Some(" /a , ,,/b\t"), Some(&home)) {
        Ok(RootPlan::Named(named)) => assert_eq!(named, ["/a", "/b"]),
        other => panic!("{other:?}"),
    }
    match plan_roots(Some(" , "), Some(&home)) {
        Ok(RootPlan::Named(named)) => assert!(named.is_empty()),
        other => panic!("{other:?}"),
    }
    assert!(matches!(
        plan_roots(None, None),
        Err(CursorError::HomeNotSet)
    ));
    assert!(matches!(
        plan_roots(Some(""), None),
        Err(CursorError::HomeNotSet)
    ));
    assert_eq!(CursorError::HomeNotSet.message(), "home directory is not set");
}

#[test]
fn each_root_counts_once() {
    let probe = |text: &str, is_dir: bool| RootProbe {
        path: source_path(text),
        is_dir,
    };
    let probes = vec![
        probe("/b", true),
        probe("/a", true),
        probe("/missing", false),
        probe("/b/", true),
        probe("/a/.", true),
    ];
    let roots: Vec<String> = resolve_roots(&probes).iter().map(shown).collect();
    assert_eq!(roots, ["/b", "/a"]);
}

#[test]
fn files_come_in_path_order_each_once() {
    let files = [
        "chats/b/s/store.db",
        "chats/a/s2/store.db",
        "chats/a/s10/store.db",
        "chats/a/deep/er/store.db",
        "chats/store.db",
        "chats/a/s2/store.db-wal",
        "projects/p/sdk-agent-store/index.db",
        "projects/p/sdk-agent-store/h/index.db",
        "projects/p/sdk-agent-store/h/store.db",
        "projects/p/sdk-agent-store/h/runs.ndjson",
        "projects/p/sdk-agent-store/g/runs.ndjson",
        "projects/q/other/index.db",
    ];
    let roots = vec![listing("/r", &files), listing("/r", &files)];
    let (dbs, ndjson) = discover_source_files(&roots);
    let paths: Vec<String> = dbs.iter().map(|file| shown(&file.path)).collect();
    let mut expected = vec![
        "/r/chats/a/deep/er/store.db",
        "/r/chats/a/s10/store.db",
        "/r/chats/a/s2/store.db",
        "/r/chats/b/s/store.db",
        "/r/chats/store.db",
        "/r/projects/p/sdk-agent-store/h/index.db",
        "/r/projects/p/sdk-agent-store/index.db",
    ];
    assert_eq!(paths, expected);
    expected.sort_by(|a, b| Path::new(a).cmp(Path::new(b)));
    assert_eq!(paths, expected);
    assert!(dbs[..5].iter().all(|db| db.kind == CursorDbKind::Store));
    assert!(dbs[5..].iter().all(|db| db.kind == CursorDbKind::Index));
    let lines: Vec<String> = ndjson.iter().map(|file| shown(&file.path)).collect();
    assert_eq!(
        lines,
        [
            "/r/projects/p/sdk-agent-store/g/runs.ndjson",
            "/r/projects/p/sdk-agent-store/h/runs.ndjson",
        ]
    );
}

#[test]
fn the_order_in_which_folders_are_read_does_not_matter() {
    let mut files = vec![
        "chats/b/s/store.db",
        "chats/a/s/store.db",
        "acp-sessions/s/store.db",
        "projects/q/sdk-agent-store/h/index.db",
        "projects/p/sdk-agent-store/h/index.db",
        "projects/p/sdk-agent-store/h/runs.ndjson",
    ];
    let found = |files: &[&str]| -> (Vec<String>, Vec<String>) {
        let (dbs, ndjson) = discover_source_files(&vec![listing("/r", files)]);
        (
            dbs.iter().map(|file| shown(&file.path)).collect(),
            ndjson.iter().map(|file| shown(&file.path)).collect(),
        )
    };
    let expected = found(&files);
    files.reverse();
    assert_eq!(found(&files), expected);
    files.swap(1, 4);
    assert_eq!(found(&files), expected);
    assert_eq!(expected.0.len(), 5);
}

#[test]
fn agent_stores_stand_in_for_a_missing_catalog() {
    let root = listing(
        "/r",
        &["projects/my-app/sdk-agent-store/hash1/agents/ab12/store.db"],
    );
    assert!(has_data(&Ok(vec![listing(
        "/r",
        &["projects/my-app/sdk-agent-store/hash1/agents/ab12/store.db"],
    )])));
    let (dbs, ndjson) = discover_source_files(&vec![root]);
    assert_eq!(dbs.len(), 1);
    assert_eq!(
        shown(&dbs[0].path),
        "/r/projects/my-app/sdk-agent-store/hash1/agents/ab12/store.db"
    );
    assert_eq!(dbs[0].kind, CursorDbKind::Store);
    assert!(ndjson.is_empty());
    let (session, project) = identity_from_path(&dbs[0].path);
    assert_eq!(session, "ab12");
    assert_eq!(project, "my-app");
}

#[test]
fn agent_stores_beside_a_catalog_are_not_read() {
    let root = listing(
        "/r",
        &[
            "projects/p/sdk-agent-store/h1/index.db",
            "projects/p/sdk-agent-store/h1/agents/a/store.db",
            "projects/p/sdk-agent-store/h2/agents/b/store.db",
            "projects/p/sdk-agent-store/h2/other/store.db",
            "projects/p/sdk-agent-store/agents/c/store.db",
            "chats/w/s/store.db",
        ],
    );
    let (dbs, _) = discover_source_files(&vec![root]);
    let found: Vec<(String, CursorDbKind)> = dbs
        .iter()
        .map(|db| (shown(&db.path), db.kind))
        .collect();
    assert_eq!(
        found,
        [
            ("/r/chats/w/s/store.db".to_string(), CursorDbKind::Store),
            (
                "/r/projects/p/sdk-agent-store/h1/index.db".to_string(),
                CursorDbKind::Index
            ),
            (
                "/r/projects/p/sdk-agent-store/h2/agents/b/store.db".to_string(),
                CursorDbKind::Store
            ),
        ]
    );
}

#[test]
fn event_logs_are_listed_with_runs() {
    let root = listing(
        "/r",
        &[
            "projects/p/sdk-agent-store/h/runs.ndjson",
            "projects/p/sdk-agent-store/h/run_events.ndjson",
            "projects/p/sdk-agent-store/g/run_events.ndjson",
        ],
    );
    let (dbs, ndjson) = discover_source_files(&vec![root]);
    assert!(dbs.is_empty());
    let found: Vec<(String, CursorNdjsonKind)> = ndjson
        .iter()
        .map(|file| (shown(&file.path), file.kind))
        .collect();
    assert_eq!(
        found,
        [
            (
                "/r/projects/p/sdk-agent-store/g/run_events.ndjson".to_string(),
                CursorNdjsonKind::Events
            ),
            (
                "/r/projects/p/sdk-agent-store/h/run_events.ndjson".to_string(),
                CursorNdjsonKind::Events
            ),
            (
                "/r/projects/p/sdk-agent-store/h/runs.ndjson".to_string(),
                CursorNdjsonKind::Runs
            ),
        ]
    );
}

#[test]
fn links_and_other_items_are_not_followed() {
    let root = RootListing {
        path: source_path("/r"),
        chats: vec![
            Node {
                name: b"store.db".to_vec(),
                kind: NodeKind::Other,
            },
            Node {
                name: b"store.db".to_vec(),
                kind: NodeKind::Folder(vec![Node {
                    name: b"store.db".to_vec(),
                    kind: NodeKind::File,
                }]),
            },
        ],
        acp_sessions: Vec::new(),
        projects: vec![Project {
            name: b"p".to_vec(),
            sdk_store: None,
        }],
    };
    let (dbs, ndjson) = discover_source_files(&vec![root]);
    let paths: Vec<String> = dbs.iter().map(|file| shown(&file.path)).collect();
    assert_eq!(paths, ["/r/chats/store.db/store.db"]);
    assert!(ndjson.is_empty());
}

#[test]
fn has_data_detects_store_db() {
    let root = listing("/r", &["chats/ws/sess/store.db"]);
    assert!(has_data(&Ok(vec![root])));
}

#[test]
fn has_data_is_false_when_home_has_no_cursor_sources() {
    let root = listing(
        "/r",
        &[
            "plugins/ignore-me/store.db",
            "projects/app/agent-transcripts/sess.jsonl",
        ],
    );
    assert!(!has_data(&Ok(vec![root])));
}

#[test]
fn has_data_is_false_without_a_home_and_true_for_lines_alone() {
    assert!(!has_data(&Err(CursorError::HomeNotSet)));
    assert!(!has_data(&Ok(Vec::new())));
    let lines = listing("/r", &["projects/app/sdk-agent-store/h/runs.ndjson"]);
    assert!(has_data(&Ok(vec![lines])));
    let catalog = listing("/r", &["projects/app/sdk-agent-store/h/index.db"]);
    assert!(has_data(&Ok(vec![catalog])));
}

#[test]
fn folders_of_a_root_have_their_paths() {
    let root = source_path("/r");
    assert_eq!(shown(&chats_folder(&root)), "/r/chats");
    assert_eq!(shown(&acp_sessions_folder(&root)), "/r/acp-sessions");
    assert_eq!(shown(&projects_folder(&root)), "/r/projects");
    assert_eq!(
        shown(&sdk_store_folder(&root, &b"app".to_vec())),
        "/r/projects/app/sdk-agent-store"
    );
}
