//! The file tree: directories and regular files, each with an identity, times and a size.
use vstd::prelude::*;

use crate::api::core_api::CoreApi;
use crate::time::FileTime;

verus! {

pub type Id = u64;

/// A stable numeric identifier and the name used as a path segment.
pub struct IdName {
    pub id: Id,
    pub name: String,
}

/// Identity, times and size: what every node of a tree carries.
pub struct FileBase {
    pub id: IdName,
    pub time: FileTime,
    pub size: Option<u64>,
}

pub struct Directory {
    pub base: FileBase,
    pub files: Vec<File>,
}

pub struct RegularFile {
    pub base: FileBase,
}

pub enum File {
    Directory(Directory),
    RegularFile(RegularFile),
}

/// The unit that is fetched, compared, merged and stored: an account and its root directory.
pub struct FileTree {
    pub api: CoreApi,
    pub root: Directory,
}

/// What a node carries, as plain values.
pub struct BaseView {
    pub id: Id,
    pub name: Seq<char>,
    pub time: FileTime,
    pub size: Option<u64>,
}

/// The mathematical model of a tree node.
pub enum Node {
    Dir(BaseView, Seq<Node>),
    Reg(BaseView),
}

impl Node {
    pub open spec fn base(self) -> BaseView {
        match self {
            Node::Dir(b, _) => b,
            Node::Reg(b) => b,
        }
    }

    pub open spec fn id(self) -> Id {
        self.base().id
    }

    pub open spec fn children(self) -> Seq<Node> {
        match self {
            Node::Dir(_, c) => c,
            Node::Reg(_) => Seq::empty(),
        }
    }
}

impl View for FileBase {
    type V = BaseView;

    open spec fn view(&self) -> BaseView {
        BaseView { id: self.id.id, name: self.id.name@, time: self.time, size: self.size }
    }
}

/// The models of a sequence of files, in order.
pub open spec fn view_files(s: Seq<File>) -> Seq<Node>
    decreases s,
{
    if s.len() == 0 {
        Seq::empty()
    } else {
        view_files(s.drop_last()).push(view_file(s.last()))
    }
}

pub open spec fn view_file(f: File) -> Node
    decreases f,
{
    match f {
        File::Directory(d) => Node::Dir(d.base@, view_files(d.files@)),
        File::RegularFile(r) => Node::Reg(r.base@),
    }
}

impl View for File {
    type V = Node;

    open spec fn view(&self) -> Node {
        view_file(*self)
    }
}

impl View for Directory {
    type V = Node;

    open spec fn view(&self) -> Node {
        Node::Dir(self.base@, view_files(self.files@))
    }
}

impl View for RegularFile {
    type V = Node;

    open spec fn view(&self) -> Node {
        Node::Reg(self.base@)
    }
}

pub proof fn lemma_view_files(s: Seq<File>)
    ensures
        view_files(s).len() == s.len(),
        forall|i: int| 0 <= i < s.len() ==> #[trigger] view_files(s)[i] == s[i]@,
    decreases s.len(),
{
    if s.len() > 0 {
        lemma_view_files(s.drop_last());
    }
}

pub proof fn lemma_view_files_push(s: Seq<File>, f: File)
    ensures
        view_files(s.push(f)) == view_files(s).push(f@),
{
    assert(s.push(f).drop_last() =~= s);
}

impl File {
    /// The identity, times and size of this node.
    pub fn base(&self) -> (r: &FileBase)
        ensures
            r@ == self@.base(),
    {
        match self {
            File::Directory(d) => &d.base,
            File::RegularFile(f) => &f.base,
        }
    }

    pub fn into_base(self) -> (r: FileBase)
        ensures
            r@ == self@.base(),
    {
        match self {
            File::Directory(d) => d.base,
            File::RegularFile(f) => f.base,
        }
    }
}

impl FileTree {
    /// Where the snapshot of the mirror in `dir` is stored.
    pub fn default_path(dir: &String) -> (r: String)
        ensures
            r@ == crate::download::join_path(dir@, "file_tree.json"@),
    {
        let name = String::from_str("file_tree.json");
        crate::download::to_path(dir, &name)
    }
}

} // verus!
