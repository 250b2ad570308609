//! Paths of the file system, as the components they are made of.

use vstd::prelude::*;
use vstd::utf8::*;

use crate::codec::utf8_text;
use crate::order::{
    is_total_order, lemma_lex_antisymmetric, lemma_lex_total, lemma_lex_transitive, lex_le,
    SortKey,
};
use crate::text::{opt_text, opt_view, text_eq};

verus! {

/// One component of a path. Names are bytes, which need not be UTF-8.
#[derive(Debug)]
pub enum Part {
    Prefix(Vec<u8>),
    Root,
    Current,
    Parent,
    Normal(Vec<u8>),
}

/// The mathematical view of a component.
#[verifier::ext_equal]
pub enum PartView {
    Prefix(Seq<u8>),
    Root,
    Current,
    Parent,
    Normal(Seq<u8>),
}

impl View for Part {
    type V = PartView;

    open spec fn view(&self) -> PartView {
        match self {
            Part::Prefix(name) => PartView::Prefix(name@),
            Part::Root => PartView::Root,
            Part::Current => PartView::Current,
            Part::Parent => PartView::Parent,
            Part::Normal(name) => PartView::Normal(name@),
        }
    }
}

/// A path of the file system.
#[derive(Debug)]
pub struct SourcePath {
    pub parts: Vec<Part>,
}

impl View for SourcePath {
    type V = Seq<PartView>;

    open spec fn view(&self) -> Seq<PartView> {
        Seq::new(self.parts@.len(), |i: int| self.parts@[i]@)
    }
}

/// The views of a list of paths.
pub open spec fn path_views(list: Seq<SourcePath>) -> Seq<Seq<PartView>> {
    Seq::new(list.len(), |i: int| list[i]@)
}

/// The order of bytes.
pub open spec fn byte_le() -> spec_fn(u8, u8) -> bool {
    |x: u8, y: u8| x <= y
}

/// The place of a kind of component in the order of components.
pub open spec fn part_rank(part: PartView) -> u8 {
    match part {
        PartView::Prefix(_) => 0,
        PartView::Root => 1,
        PartView::Current => 2,
        PartView::Parent => 3,
        PartView::Normal(_) => 4,
    }
}

/// The name that a component carries.
pub open spec fn part_name(part: PartView) -> Seq<u8> {
    match part {
        PartView::Prefix(name) => name,
        PartView::Normal(name) => name,
        _ => Seq::empty(),
    }
}

/// The order of components: by kind, and by name within a kind.
pub open spec fn part_le() -> spec_fn(PartView, PartView) -> bool {
    |x: PartView, y: PartView|
        part_rank(x) < part_rank(y) || (part_rank(x) == part_rank(y) && lex_le(
            byte_le(),
            part_name(x),
            part_name(y),
        ))
}

/// The order of paths, by their components.
pub open spec fn path_le(a: Seq<PartView>, b: Seq<PartView>) -> bool {
    lex_le(part_le(), a, b)
}

/// Whether a path comes before another.
pub open spec fn path_below(a: Seq<PartView>, b: Seq<PartView>) -> bool {
    path_le(a, b) && a != b
}

/// Components are totally ordered.
pub proof fn lemma_parts_are_ordered()
    ensures
        is_total_order(part_le()),
{
    let le = part_le();
    assert forall|x: PartView, y: PartView| #[trigger] le(x, y) || le(y, x) by {
        lemma_lex_total(byte_le(), part_name(x), part_name(y));
    }
    assert forall|x: PartView, y: PartView| #[trigger] le(x, y) && le(y, x) implies x == y by {
        lemma_lex_antisymmetric(byte_le(), part_name(x), part_name(y));
    }
    assert forall|x: PartView, y: PartView, z: PartView| #[trigger]
        le(x, y) && #[trigger] le(y, z) implies le(x, z) by {
        if part_rank(x) == part_rank(y) && part_rank(y) == part_rank(z) {
            lemma_lex_transitive(byte_le(), part_name(x), part_name(y), part_name(z));
        }
    }
}

fn bytes_eq(a: &Vec<u8>, b: &Vec<u8>) -> (same: bool)
    ensures
        same == (a@ == b@),
{
    if a.len() != b.len() {
        return false;
    }
    let mut i: usize = 0;
    while i < a.len()
        invariant
            a@.len() == b@.len(),
            i <= a@.len(),
            forall|j: int| 0 <= j < i ==> a@[j] == b@[j],
        decreases a@.len() - i,
    {
        if a[i] != b[i] {
            return false;
        }
        i += 1;
    }
    proof {
        assert(a@ =~= b@);
    }
    true
}

fn bytes_at_most(a: &Vec<u8>, b: &Vec<u8>) -> (yes: bool)
    ensures
        yes == lex_le(byte_le(), a@, b@),
{
    let mut i: usize = 0;
    proof {
        assert(a@.skip(0) =~= a@);
        assert(b@.skip(0) =~= b@);
    }
    while i < a.len() && i < b.len()
        invariant
            i <= a@.len(),
            i <= b@.len(),
            lex_le(byte_le(), a@, b@) == lex_le(byte_le(), a@.skip(i as int), b@.skip(i as int)),
        decreases a@.len() - i,
    {
        proof {
            assert(a@.skip(i as int)[0] == a@[i as int]);
            assert(b@.skip(i as int)[0] == b@[i as int]);
            assert(a@.skip(i as int).skip(1) =~= a@.skip(i + 1));
            assert(b@.skip(i as int).skip(1) =~= b@.skip(i + 1));
        }
        if a[i] != b[i] {
            return a[i] < b[i];
        }
        i += 1;
    }
    i == a.len()
}

impl Part {
    /// The place of the kind of the component in the order of components.
    fn rank(&self) -> (rank: u8)
        ensures
            rank == part_rank(self@),
    {
        match self {
            Part::Prefix(_) => 0,
            Part::Root => 1,
            Part::Current => 2,
            Part::Parent => 3,
            Part::Normal(_) => 4,
        }
    }

    /// Whether the two components are the same.
    fn same(&self, other: &Part) -> (same: bool)
        ensures
            same == (self@ == other@),
    {
        match (self, other) {
            (Part::Prefix(a), Part::Prefix(b)) => bytes_eq(a, b),
            (Part::Root, Part::Root) => true,
            (Part::Current, Part::Current) => true,
            (Part::Parent, Part::Parent) => true,
            (Part::Normal(a), Part::Normal(b)) => bytes_eq(a, b),
            _ => false,
        }
    }

    /// Whether the component does not come after the other.
    fn precedes(&self, other: &Part) -> (yes: bool)
        ensures
            yes == part_le()(self@, other@),
    {
        match (self, other) {
            (Part::Prefix(a), Part::Prefix(b)) => bytes_at_most(a, b),
            (Part::Normal(a), Part::Normal(b)) => bytes_at_most(a, b),
            _ => self.rank() <= other.rank(),
        }
    }

    /// A copy of the component.
    fn duplicate(&self) -> (copy: Part)
        ensures
            copy@ == self@,
    {
        match self {
            Part::Prefix(name) => Part::Prefix(name.clone()),
            Part::Root => Part::Root,
            Part::Current => Part::Current,
            Part::Parent => Part::Parent,
            Part::Normal(name) => Part::Normal(name.clone()),
        }
    }
}

/// The text of a component: names that are not UTF-8 have none.
pub open spec fn part_text(part: PartView) -> Option<Seq<char>> {
    match part {
        PartView::Prefix(name) => name_text(name),
        PartView::Root => Some("/"@),
        PartView::Current => Some("."@),
        PartView::Parent => Some(".."@),
        PartView::Normal(name) => name_text(name),
    }
}

/// The text that a name encodes, if it is UTF-8.
pub open spec fn name_text(name: Seq<u8>) -> Option<Seq<char>> {
    if valid_utf8(name) {
        Some(decode_utf8(name))
    } else {
        None
    }
}

/// The text that a name encodes, if it is UTF-8.
pub fn text_of_name<'a>(name: &'a Vec<u8>) -> (text: Option<&'a str>)
    ensures
        opt_view(text) == name_text(name@),
{
    utf8_text(name.as_slice())
}

/// Whether a name is the UTF-8 encoding of the text.
pub fn name_is(name: &Vec<u8>, text: &str) -> (same: bool)
    ensures
        same == (name_text(name@) == Some(text@)),
{
    match text_of_name(name) {
        Some(t) => text_eq(t, text),
        None => false,
    }
}

/// The texts of the components of a path, without those that have none.
pub open spec fn path_texts(path: Seq<PartView>) -> Seq<Seq<char>>
    decreases path.len(),
{
    if path.len() == 0 {
        Seq::empty()
    } else {
        match part_text(path.last()) {
            Some(text) => path_texts(path.drop_last()).push(text),
            None => path_texts(path.drop_last()),
        }
    }
}

/// The name of the folder that a path lies in: the last component but one,
/// where it is a name in UTF-8.
pub open spec fn folder_name(path: Seq<PartView>) -> Option<Seq<char>> {
    if path.len() < 2 || path.last() is Root || path.last() is Prefix {
        None
    } else {
        match path[path.len() - 2] {
            PartView::Normal(name) => name_text(name),
            _ => None,
        }
    }
}

/// Whether two paths lie in one folder.
pub open spec fn same_folder(a: Seq<PartView>, b: Seq<PartView>) -> bool {
    a.len() > 0 && b.len() > 0 && a.drop_last() == b.drop_last()
}

impl SourcePath {
    /// Whether the two paths are the same.
    pub fn same(&self, other: &SourcePath) -> (same: bool)
        ensures
            same == (self@ == other@),
    {
        if self.parts.len() != other.parts.len() {
            proof {
                assert(self@.len() != other@.len());
            }
            return false;
        }
        let mut i: usize = 0;
        while i < self.parts.len()
            invariant
                self.parts@.len() == other.parts@.len(),
                i <= self.parts@.len(),
                forall|j: int| 0 <= j < i ==> self@[j] == other@[j],
            decreases self.parts@.len() - i,
        {
            if !self.parts[i].same(&other.parts[i]) {
                proof {
                    assert(self@[i as int] != other@[i as int]);
                }
                return false;
            }
            i += 1;
        }
        proof {
            assert(self@ =~= other@);
        }
        true
    }

    /// Whether the two paths lie in one folder.
    pub fn beside(&self, other: &SourcePath) -> (yes: bool)
        ensures
            yes == same_folder(self@, other@),
    {
        let n: usize = self.parts.len();
        if n == 0 || n != other.parts.len() {
            proof {
                if n > 0 && other@.len() > 0 {
                    assert(self@.drop_last().len() != other@.drop_last().len());
                }
            }
            return false;
        }
        let mut i: usize = 0;
        while i < n - 1
            invariant
                n == self.parts@.len(),
                n == other.parts@.len(),
                n > 0,
                i <= n - 1,
                forall|j: int| 0 <= j < i ==> self@[j] == other@[j],
            decreases n - i,
        {
            if !self.parts[i].same(&other.parts[i]) {
                proof {
                    assert(self@.drop_last()[i as int] != other@.drop_last()[i as int]);
                }
                return false;
            }
            i += 1;
        }
        proof {
            assert(self@.drop_last() =~= other@.drop_last());
        }
        true
    }

    /// A copy of the path.
    pub fn duplicate(&self) -> (copy: SourcePath)
        ensures
            copy@ == self@,
    {
        let mut parts: Vec<Part> = Vec::new();
        let mut i: usize = 0;
        while i < self.parts.len()
            invariant
                i <= self.parts@.len(),
                parts@.len() == i,
                forall|j: int| 0 <= j < i ==> (#[trigger] parts@[j])@ == self.parts@[j]@,
            decreases self.parts@.len() - i,
        {
            parts.push(self.parts[i].duplicate());
            i += 1;
        }
        let copy = SourcePath { parts };
        proof {
            assert(copy@ =~= self@);
        }
        copy
    }

    /// The path of the item with that name in the folder at this path.
    pub fn join(&self, name: &Vec<u8>) -> (path: SourcePath)
        ensures
            path@ == self@.push(PartView::Normal(name@)),
    {
        let mut path = self.duplicate();
        path.parts.push(Part::Normal(name.clone()));
        proof {
            assert(path@ =~= self@.push(PartView::Normal(name@)));
        }
        path
    }

    /// The texts of the components, without those that have none.
    pub fn texts(&self) -> (list: Vec<String>)
        ensures
            crate::text::texts(list@) == path_texts(self@),
    {
        let mut list: Vec<String> = Vec::new();
        let mut i: usize = 0;
        proof {
            assert(self@.take(0) =~= Seq::empty());
            assert(crate::text::texts(list@) =~= Seq::<Seq<char>>::empty());
        }
        while i < self.parts.len()
            invariant
                i <= self.parts@.len(),
                crate::text::texts(list@) == path_texts(self@.take(i as int)),
            decreases self.parts@.len() - i,
        {
            let ghost before = crate::text::texts(list@);
            let text: Option<String> = match &self.parts[i] {
                Part::Prefix(name) => match text_of_name(name) {
                    Some(t) => Some(t.to_owned()),
                    None => None,
                },
                Part::Root => Some("/".to_owned()),
                Part::Current => Some(".".to_owned()),
                Part::Parent => Some("..".to_owned()),
                Part::Normal(name) => match text_of_name(name) {
                    Some(t) => Some(t.to_owned()),
                    None => None,
                },
            };
            proof {
                assert(opt_text(text) == part_text(self@[i as int]));
                assert(self@.take(i + 1).drop_last() =~= self@.take(i as int));
                assert(self@.take(i + 1).last() == self@[i as int]);
            }
            match text {
                Some(t) => {
                    list.push(t);
                    proof {
                        assert(crate::text::texts(list@) =~= before.push(t@));
                    }
                },
                None => {},
            }
            i += 1;
        }
        proof {
            assert(self@.take(i as int) =~= self@);
        }
        list
    }

    /// The name of the folder that the path lies in.
    pub fn folder<'a>(&'a self) -> (name: Option<&'a str>)
        ensures
            opt_view(name) == folder_name(self@),
    {
        let n: usize = self.parts.len();
        if n < 2 {
            return None;
        }
        match self.parts[n - 1] {
            Part::Root => {
                return None;
            },
            Part::Prefix(_) => {
                return None;
            },
            _ => {},
        }
        match &self.parts[n - 2] {
            Part::Normal(name) => text_of_name(name),
            _ => None,
        }
    }
}

impl SortKey for SourcePath {
    open spec fn key_le(&self, other: &SourcePath) -> bool {
        path_le(self@, other@)
    }

    proof fn key_total(&self, other: &SourcePath) {
        lemma_parts_are_ordered();
        lemma_lex_total(part_le(), self@, other@);
    }

    proof fn key_transitive(&self, middle: &SourcePath, other: &SourcePath) {
        lemma_parts_are_ordered();
        lemma_lex_transitive(part_le(), self@, middle@, other@);
    }

    fn at_most(&self, other: &SourcePath) -> (yes: bool) {
        let mut i: usize = 0;
        proof {
            assert(self@.skip(0) =~= self@);
            assert(other@.skip(0) =~= other@);
        }
        while i < self.parts.len() && i < other.parts.len()
            invariant
                i <= self.parts@.len(),
                i <= other.parts@.len(),
                path_le(self@, other@) == path_le(self@.skip(i as int), other@.skip(i as int)),
            decreases self.parts@.len() - i,
        {
            proof {
                assert(self@.skip(i as int)[0] == self.parts@[i as int]@);
                assert(other@.skip(i as int)[0] == other.parts@[i as int]@);
                assert(self@.skip(i as int).skip(1) =~= self@.skip(i + 1));
                assert(other@.skip(i as int).skip(1) =~= other@.skip(i + 1));
            }
            if !self.parts[i].same(&other.parts[i]) {
                return self.parts[i].precedes(&other.parts[i]);
            }
            i += 1;
        }
        i == self.parts.len()
    }
}

} // verus!
