//! The roots below which usage is recorded, and the session and project that
//! the path of a file tells.

use vstd::prelude::*;
use vstd::string::*;
use vstd::utf8::*;

use crate::source_path::{
    folder_name, name_text, path_texts, path_views, PartView, SourcePath,
};
use crate::text::{opt_view, pieces, split_on, text_eq, texts, trim, trimmed};

verus! {

/// The index of the first text of a list that is `name`.
pub open spec fn position(list: Seq<Seq<char>>, name: Seq<char>) -> Option<int>
    decreases list.len(),
{
    if list.len() == 0 {
        None
    } else if list[0] == name {
        Some(0)
    } else {
        match position(list.skip(1), name) {
            Some(i) => Some(i + 1),
            None => None,
        }
    }
}

/// The text at an index, or another where the list is shorter.
pub open spec fn text_or_at(list: Seq<Seq<char>>, i: int, other: Seq<char>) -> Seq<char> {
    if 0 <= i < list.len() {
        list[i]
    } else {
        other
    }
}

/// The session and the project that the path of a file tells.
pub open spec fn path_identity(path: Seq<PartView>) -> (Seq<char>, Seq<char>) {
    let parts = path_texts(path);
    match position(parts, "chats"@) {
        Some(i) => (
            text_or_at(parts, i + 2, "session"@),
            text_or_at(parts, i + 1, "cursor"@),
        ),
        None => match position(parts, "acp-sessions"@) {
            Some(i) => (text_or_at(parts, i + 1, "session"@), "acp"@),
            None => match position(parts, "projects"@) {
                Some(i) => (
                    folder_or(path, "sdk"@),
                    text_or_at(parts, i + 1, "cursor"@),
                ),
                None => (folder_or(path, "cursor"@), "cursor"@),
            },
        },
    }
}

/// The name of the folder that a path lies in, or another where it has none.
pub open spec fn folder_or(path: Seq<PartView>, other: Seq<char>) -> Seq<char> {
    match folder_name(path) {
        Some(name) => name,
        None => other,
    }
}

proof fn lemma_position_past(list: Seq<Seq<char>>, name: Seq<char>, i: int)
    requires
        0 <= i <= list.len(),
        forall|j: int| 0 <= j < i ==> list[j] != name,
    ensures
        position(list, name) == (match position(list.skip(i), name) {
            Some(k) => Some(k + i),
            None => None,
        }),
    decreases i,
{
    if i == 0 {
        assert(list.skip(0) =~= list);
    } else {
        assert forall|j: int| 0 <= j < i - 1 implies list.skip(1)[j] != name by {
            assert(list.skip(1)[j] == list[j + 1]);
        }
        lemma_position_past(list.skip(1), name, i - 1);
        assert(list.skip(1).skip(i - 1) =~= list.skip(i));
        assert(list[0] != name);
    }
}

fn find(list: &Vec<String>, name: &str) -> (found: Option<usize>)
    ensures
        match found {
            Some(i) => i < list@.len() && position(texts(list@), name@) == Some(i as int),
            None => position(texts(list@), name@) is None,
        },
{
    let mut i: usize = 0;
    while i < list.len()
        invariant
            i <= list@.len(),
            forall|j: int| 0 <= j < i ==> texts(list@)[j] != name@,
        decreases list@.len() - i,
    {
        if text_eq(list[i].as_str(), name) {
            proof {
                lemma_position_past(texts(list@), name@, i as int);
                assert(texts(list@).skip(i as int)[0] == list@[i as int]@);
            }
            return Some(i);
        }
        i += 1;
    }
    proof {
        lemma_position_past(texts(list@), name@, i as int);
        assert(texts(list@).skip(i as int) =~= Seq::empty());
    }
    None
}

fn text_at_or(list: &Vec<String>, i: usize, step: usize, other: &str) -> (text: String)
    requires
        i < list@.len(),
        step <= 2,
    ensures
        text@ == text_or_at(texts(list@), i + step, other@),
{
    let left: usize = list.len() - i;
    if step < left {
        list[i + step].clone()
    } else {
        other.to_owned()
    }
}

/// The session id and the project that the path of a discovered file tells.
pub fn identity_from_path(path: &SourcePath) -> (identity: (String, String))
    ensures
        (identity.0@, identity.1@) == path_identity(path@),
{
    let parts = path.texts();
    match find(&parts, "chats") {
        Some(i) => {
            return (text_at_or(&parts, i, 2, "session"), text_at_or(&parts, i, 1, "cursor"));
        },
        None => {},
    }
    match find(&parts, "acp-sessions") {
        Some(i) => {
            return (text_at_or(&parts, i, 1, "session"), "acp".to_owned());
        },
        None => {},
    }
    match find(&parts, "projects") {
        Some(i) => {
            let session = match path.folder() {
                Some(name) => name.to_owned(),
                None => "sdk".to_owned(),
            };
            return (session, text_at_or(&parts, i, 1, "cursor"));
        },
        None => {},
    }
    let session = match path.folder() {
        Some(name) => name.to_owned(),
        None => "cursor".to_owned(),
    };
    (session, "cursor".to_owned())
}

/// Why the roots cannot be told.
#[derive(Clone, Copy, Debug, PartialEq, Eq, Structural)]
pub enum CursorError {
    /// The home directory is not set.
    HomeNotSet,
}

impl CursorError {
    /// What to tell about the error.
    pub fn message(&self) -> (text: String)
        ensures
            text@ == (match *self {
                CursorError::HomeNotSet => "home directory is not set"@,
            }),
    {
        match self {
            CursorError::HomeNotSet => "home directory is not set".to_owned(),
        }
    }
}

/// Where to look for the roots.
#[derive(Debug)]
pub enum RootPlan {
    /// At the paths that the override names.
    Named(Vec<String>),
    /// At one path in the home directory.
    Home(SourcePath),
}

/// The pieces that are not blank, without surrounding white space.
pub open spec fn nonblank_pieces(list: Seq<Seq<char>>) -> Seq<Seq<char>>
    decreases list.len(),
{
    if list.len() == 0 {
        Seq::empty()
    } else if trimmed(list.last()).len() > 0 {
        nonblank_pieces(list.drop_last()).push(trimmed(list.last()))
    } else {
        nonblank_pieces(list.drop_last())
    }
}

/// The paths that an override names: the pieces between its commas.
pub open spec fn named_roots(override_text: Seq<char>) -> Seq<Seq<char>> {
    nonblank_pieces(pieces(override_text, ','))
}

/// The path of the item with that name in the folder at `path`.
pub open spec fn with_name(path: Seq<PartView>, text: Seq<char>) -> Seq<PartView> {
    path.push(PartView::Normal(encode_utf8(text)))
}

/// The mathematical view of where to look for the roots.
#[verifier::ext_equal]
pub enum PlanView {
    Named(Seq<Seq<char>>),
    Home(Seq<PartView>),
}

impl View for RootPlan {
    type V = PlanView;

    open spec fn view(&self) -> PlanView {
        match self {
            RootPlan::Named(list) => PlanView::Named(texts(list@)),
            RootPlan::Home(path) => PlanView::Home(path@),
        }
    }
}

/// Where to look for the roots: at the paths that an override which is not
/// empty names, else at `.cursor` in the home directory, which must be set.
pub open spec fn root_plan(
    override_text: Option<Seq<char>>,
    home: Option<Seq<PartView>>,
) -> Result<PlanView, CursorError> {
    match override_text {
        Some(text) if text.len() > 0 => Ok(PlanView::Named(named_roots(text))),
        _ => match home {
            Some(path) => Ok(PlanView::Home(with_name(path, ".cursor"@))),
            None => Err(CursorError::HomeNotSet),
        },
    }
}

/// Splits an override at its commas into the paths that it names.
fn split_override(text: &str) -> (list: Vec<String>)
    ensures
        texts(list@) == named_roots(text@),
{
    let all = split_on(text, ',');
    let mut list: Vec<String> = Vec::new();
    let mut i: usize = 0;
    proof {
        assert(texts(all@).take(0) =~= Seq::empty());
        assert(texts(list@) =~= Seq::<Seq<char>>::empty());
    }
    while i < all.len()
        invariant
            i <= all@.len(),
            texts(list@) == nonblank_pieces(texts(all@).take(i as int)),
        decreases all@.len() - i,
    {
        let ghost before = texts(list@);
        let piece = trim(all[i].as_str());
        proof {
            assert(texts(all@).take(i + 1).drop_last() =~= texts(all@).take(i as int));
            assert(texts(all@).take(i + 1).last() == all@[i as int]@);
        }
        if piece.unicode_len() > 0 {
            list.push(piece.to_owned());
            proof {
                assert(texts(list@) =~= before.push(piece@));
            }
        }
        i += 1;
    }
    proof {
        assert(texts(all@).take(i as int) =~= texts(all@));
    }
    list
}

/// The path of the folder with that name in the folder at `path`.
pub fn subfolder(path: &SourcePath, name: &str) -> (folder: SourcePath)
    ensures
        folder@ == with_name(path@, name@),
{
    path.join(&name.as_bytes_vec())
}

/// Where to look for the roots: at the paths that an override which is not
/// empty names, else at `.cursor` in the home directory, which must be set.
pub fn plan_roots(override_text: Option<&str>, home: Option<&SourcePath>) -> (plan: Result<
    RootPlan,
    CursorError,
>)
    ensures
        match plan {
            Ok(p) => root_plan(opt_view(override_text), opt_path(home)) == Ok::<
                PlanView,
                CursorError,
            >(p@),
            Err(e) => root_plan(opt_view(override_text), opt_path(home)) == Err::<
                PlanView,
                CursorError,
            >(e),
        },
{
    match override_text {
        Some(text) => {
            if text.unicode_len() > 0 {
                return Ok(RootPlan::Named(split_override(text)));
            }
        },
        None => {},
    }
    match home {
        Some(path) => Ok(RootPlan::Home(subfolder(path, ".cursor"))),
        None => Err(CursorError::HomeNotSet),
    }
}

/// The components of a path that may be absent.
pub open spec fn opt_path(path: Option<&SourcePath>) -> Option<Seq<PartView>> {
    match path {
        Some(p) => Some(p@),
        None => None,
    }
}

/// A path that may be a root, and whether a directory is there.
#[derive(Debug)]
pub struct RootProbe {
    pub path: SourcePath,
    pub is_dir: bool,
}

/// The roots among some probed paths: the directories, each once.
pub open spec fn usable_roots(probes: Seq<RootProbe>) -> Seq<Seq<PartView>>
    decreases probes.len(),
{
    if probes.len() == 0 {
        Seq::empty()
    } else {
        let earlier = usable_roots(probes.drop_last());
        if probes.last().is_dir && !earlier.contains(probes.last().path@) {
            earlier.push(probes.last().path@)
        } else {
            earlier
        }
    }
}

fn holds_path(list: &Vec<SourcePath>, path: &SourcePath) -> (yes: bool)
    ensures
        yes == path_views(list@).contains(path@),
{
    let mut i: usize = 0;
    while i < list.len()
        invariant
            i <= list@.len(),
            forall|j: int| 0 <= j < i ==> (#[trigger] path_views(list@)[j]) != path@,
        decreases list@.len() - i,
    {
        if list[i].same(path) {
            proof {
                assert(path_views(list@)[i as int] == path@);
            }
            return true;
        }
        i += 1;
    }
    false
}

/// The roots among some probed paths: the directories, each once, in the order
/// in which they are named.
pub fn resolve_roots(probes: &Vec<RootProbe>) -> (roots: Vec<SourcePath>)
    ensures
        path_views(roots@) == usable_roots(probes@),
{
    let mut roots: Vec<SourcePath> = Vec::new();
    let mut i: usize = 0;
    proof {
        assert(probes@.take(0) =~= Seq::empty());
        assert(path_views(roots@) =~= Seq::<Seq<PartView>>::empty());
    }
    while i < probes.len()
        invariant
            i <= probes@.len(),
            path_views(roots@) == usable_roots(probes@.take(i as int)),
        decreases probes@.len() - i,
    {
        let ghost before = path_views(roots@);
        proof {
            assert(probes@.take(i + 1).drop_last() =~= probes@.take(i as int));
            assert(probes@.take(i + 1).last() == probes@[i as int]);
        }
        if probes[i].is_dir && !holds_path(&roots, &probes[i].path) {
            roots.push(probes[i].path.duplicate());
            proof {
                assert(path_views(roots@) =~= before.push(probes@[i as int].path@));
            }
        }
        i += 1;
    }
    proof {
        assert(probes@.take(i as int) =~= probes@);
    }
    roots
}

proof fn lemma_name_text(text: Seq<char>)
    ensures
        name_text(encode_utf8(text)) == Some(text),
{
    encode_utf8_valid_utf8(text);
    encode_utf8_decode_utf8(text);
}

proof fn lemma_texts_with_name(path: Seq<PartView>, text: Seq<char>)
    ensures
        path_texts(with_name(path, text)) == path_texts(path).push(text),
{
    lemma_name_text(text);
    assert(with_name(path, text).drop_last() =~= path);
}

proof fn lemma_none_earlier(list: Seq<Seq<char>>, name: Seq<char>)
    requires
        position(list, name) is None,
    ensures
        forall|i: int| 0 <= i < list.len() ==> #[trigger] list[i] != name,
    decreases list.len(),
{
    if list.len() > 0 {
        lemma_none_earlier(list.skip(1), name);
        assert forall|i: int| 0 <= i < list.len() implies #[trigger] list[i] != name by {
            if i > 0 {
                assert(list.skip(1)[i - 1] == list[i]);
            }
        }
    }
}

proof fn lemma_position_in_extension(
    list: Seq<Seq<char>>,
    longer: Seq<Seq<char>>,
    name: Seq<char>,
)
    requires
        position(list, name) is None,
        longer.len() > list.len(),
        longer.take(list.len() as int) == list,
        longer[list.len() as int] == name,
    ensures
        position(longer, name) == Some(list.len() as int),
{
    let n = list.len() as int;
    lemma_none_earlier(list, name);
    assert forall|i: int| 0 <= i < n implies longer[i] != name by {
        assert(longer.take(n)[i] == longer[i]);
    }
    lemma_position_past(longer, name, n);
    assert(longer.skip(n)[0] == name);
}

/// `chats/<workspace>/<session>/<file>` below a root tells the session and the
/// workspace.
pub proof fn law_chat_path_tells_session_and_workspace(
    root: Seq<PartView>,
    workspace: Seq<char>,
    session: Seq<char>,
    file: Seq<char>,
)
    requires
        position(path_texts(root), "chats"@) is None,
    ensures
        path_identity(
            with_name(with_name(with_name(with_name(root, "chats"@), workspace), session), file),
        ) == (session, workspace),
{
    let a = with_name(root, "chats"@);
    let b = with_name(a, workspace);
    let c = with_name(b, session);
    let d = with_name(c, file);
    lemma_texts_with_name(root, "chats"@);
    lemma_texts_with_name(a, workspace);
    lemma_texts_with_name(b, session);
    lemma_texts_with_name(c, file);
    let parts = path_texts(root);
    assert(path_texts(d).take(parts.len() as int) =~= parts);
    lemma_position_in_extension(parts, path_texts(d), "chats"@);
}

/// `acp-sessions/<session>/<file>` below a root tells the session.
pub proof fn law_acp_path_tells_session(root: Seq<PartView>, session: Seq<char>, file: Seq<char>)
    requires
        position(path_texts(root), "acp-sessions"@) is None,
        position(
            path_texts(with_name(with_name(with_name(root, "acp-sessions"@), session), file)),
            "chats"@,
        ) is None,
    ensures
        path_identity(with_name(with_name(with_name(root, "acp-sessions"@), session), file)) == (
            session,
            "acp"@,
        ),
{
    let a = with_name(root, "acp-sessions"@);
    let b = with_name(a, session);
    let c = with_name(b, file);
    lemma_texts_with_name(root, "acp-sessions"@);
    lemma_texts_with_name(a, session);
    lemma_texts_with_name(b, file);
    let parts = path_texts(root);
    assert(path_texts(c).take(parts.len() as int) =~= parts);
    lemma_position_in_extension(parts, path_texts(c), "acp-sessions"@);
}

/// The path `projects/<slug>/sdk-agent-store/<hash>/<file>` below a root.
pub open spec fn sdk_path(
    root: Seq<PartView>,
    slug: Seq<char>,
    hash: Seq<char>,
    file: Seq<char>,
) -> Seq<PartView> {
    let project = with_name(with_name(root, "projects"@), slug);
    with_name(with_name(with_name(project, "sdk-agent-store"@), hash), file)
}

/// `projects/<slug>/sdk-agent-store/<hash>/<file>` below a root tells the hash
/// as the session and the slug as the project.
pub proof fn law_sdk_path_tells_hash_and_slug(
    root: Seq<PartView>,
    slug: Seq<char>,
    hash: Seq<char>,
    file: Seq<char>,
)
    requires
        position(path_texts(root), "projects"@) is None,
        position(path_texts(sdk_path(root, slug, hash, file)), "chats"@) is None,
        position(path_texts(sdk_path(root, slug, hash, file)), "acp-sessions"@) is None,
    ensures
        path_identity(sdk_path(root, slug, hash, file)) == (hash, slug),
{
    let a = with_name(root, "projects"@);
    let b = with_name(a, slug);
    let c = with_name(b, "sdk-agent-store"@);
    let d = with_name(c, hash);
    let e = with_name(d, file);
    lemma_texts_with_name(root, "projects"@);
    lemma_texts_with_name(a, slug);
    lemma_texts_with_name(b, "sdk-agent-store"@);
    lemma_texts_with_name(c, hash);
    lemma_texts_with_name(d, file);
    lemma_name_text(hash);
    let parts = path_texts(root);
    assert(path_texts(e).take(parts.len() as int) =~= parts);
    lemma_position_in_extension(parts, path_texts(e), "projects"@);
    assert(e[e.len() - 2] == PartView::Normal(encode_utf8(hash)));
}

} // verus!
