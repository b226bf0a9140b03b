//! An account's users, courses and modules, and how they become a file tree.
use vstd::prelude::*;

use crate::api::core_api::CoreApi;
use crate::time::{now, FileTime, Stamp};
use crate::tree::{view_files, BaseView, Directory, File, FileBase, FileTree, IdName, Node, RegularFile};

verus! {

/// An account on a host.
pub struct CanvasBase {
    pub api: CoreApi,
    pub id: IdName,
}

pub struct Canvas {
    pub base: CanvasBase,
    pub users: Vec<User>,
}

pub struct User {
    pub id: IdName,
    pub created_at: Stamp,
    pub courses: Vec<Course>,
}

pub struct Course {
    pub id: IdName,
    pub created_at: Stamp,
    pub modules: Vec<Module>,
    pub folder: Directory,
}

pub struct Module {
    pub id: IdName,
    pub completed_at: Stamp,
    pub files: Vec<RegularFile>,
}

/// What a directory made from `id` at `time` carries.
pub open spec fn directory_base(id: IdName, time: Stamp) -> BaseView {
    BaseView {
        id: id.id,
        name: id.name@,
        time: FileTime { created_at: time, updated_at: None, modified_at: None },
        size: None,
    }
}

pub open spec fn module_node(m: Module) -> Node {
    Node::Dir(
        directory_base(m.id, m.completed_at),
        m.files@.map_values(|f: RegularFile| f@),
    )
}

pub open spec fn course_node(c: Course) -> Node {
    Node::Dir(
        directory_base(c.id, c.created_at),
        seq![c.folder@] + c.modules@.map_values(|m: Module| module_node(m)),
    )
}

pub open spec fn user_node(u: User) -> Node {
    Node::Dir(
        directory_base(u.id, u.created_at),
        u.courses@.map_values(|c: Course| course_node(c)),
    )
}

impl FileBase {
    /// The base of a directory made from `id` at `time`, with no size.
    pub fn directory(id: IdName, time: Stamp) -> (r: FileBase)
        ensures
            r@ == directory_base(id, time),
    {
        FileBase { id, time: FileTime::created_at(time), size: None }
    }

    pub fn into_file(self) -> (r: RegularFile)
        ensures
            r.base == self,
    {
        RegularFile { base: self }
    }

    pub fn into_directory(self, files: Vec<File>) -> (r: Directory)
        ensures
            r.base == self,
            r.files == files,
    {
        Directory { base: self, files }
    }
}

impl Directory {
    /// A module as a directory of its files.
    pub fn from_module(module: Module) -> (r: Directory)
        ensures
            r@ == module_node(module),
    {
        let ghost m0 = module;
        let Module { id, completed_at, files } = module;
        let mut out: Vec<File> = Vec::new();
        for f in it: files
            invariant
                it.seq() == m0.files@,
                view_files(out@) == m0.files@.take(it.index() as int).map_values(
                    |f: RegularFile| f@,
                ),
        {
            let ghost out0 = out@;
            let ghost i = it.index() as int;
            out.push(File::RegularFile(f));
            proof {
                crate::tree::lemma_view_files_push(out0, File::RegularFile(f));
                assert(m0.files@.take(i + 1).map_values(|f: RegularFile| f@) =~= m0.files@.take(
                    i,
                ).map_values(|f: RegularFile| f@).push(f@));
            }
        }
        proof {
            assert(m0.files@.take(m0.files@.len() as int) =~= m0.files@);
        }
        FileBase::directory(id, completed_at).into_directory(out)
    }

    /// A course as a directory of its folder followed by its modules.
    pub fn from_course(course: Course) -> (r: Directory)
        ensures
            r@ == course_node(course),
    {
        let ghost c0 = course;
        let Course { id, created_at, modules, folder } = course;
        let mut out: Vec<File> = Vec::new();
        out.push(File::Directory(folder));
        proof {
            crate::tree::lemma_view_files_push(Seq::empty(), File::Directory(folder));
            assert(Seq::<File>::empty().push(File::Directory(folder)) =~= out@);
        }
        for m in it: modules
            invariant
                it.seq() == c0.modules@,
                view_files(out@) == seq![c0.folder@] + c0.modules@.take(it.index() as int).map_values(
                    |m: Module| module_node(m),
                ),
        {
            let ghost out0 = out@;
            let ghost i = it.index() as int;
            let d = Directory::from_module(m);
            out.push(File::Directory(d));
            proof {
                crate::tree::lemma_view_files_push(out0, File::Directory(d));
                assert(c0.modules@.take(i + 1).map_values(|m: Module| module_node(m))
                    =~= c0.modules@.take(i).map_values(|m: Module| module_node(m)).push(
                    module_node(m),
                ));
            }
        }
        proof {
            assert(c0.modules@.take(c0.modules@.len() as int) =~= c0.modules@);
        }
        FileBase::directory(id, created_at).into_directory(out)
    }

    /// A user as a directory of their courses.
    pub fn from_user(user: User) -> (r: Directory)
        ensures
            r@ == user_node(user),
    {
        let ghost u0 = user;
        let User { id, created_at, courses } = user;
        let mut out: Vec<File> = Vec::new();
        for c in it: courses
            invariant
                it.seq() == u0.courses@,
                view_files(out@) == u0.courses@.take(it.index() as int).map_values(
                    |c: Course| course_node(c),
                ),
        {
            let ghost out0 = out@;
            let ghost i = it.index() as int;
            let d = Directory::from_course(c);
            out.push(File::Directory(d));
            proof {
                crate::tree::lemma_view_files_push(out0, File::Directory(d));
                assert(u0.courses@.take(i + 1).map_values(|c: Course| course_node(c))
                    =~= u0.courses@.take(i).map_values(|c: Course| course_node(c)).push(
                    course_node(c),
                ));
            }
        }
        proof {
            assert(u0.courses@.take(u0.courses@.len() as int) =~= u0.courses@);
        }
        FileBase::directory(id, created_at).into_directory(out)
    }
}

impl FileTree {
    /// The tree of an account: a root made now, holding a directory for each user.
    pub fn from_canvas(canvas: Canvas) -> (r: FileTree)
        ensures
            r.api == canvas.base.api,
            r.root@ matches Node::Dir(b, c) && b.id == canvas.base.id.id && b.name
                == canvas.base.id.name@ && b.size is None && c == canvas.users@.map_values(
                |u: User| user_node(u),
            ),
    {
        let ghost c0 = canvas;
        let Canvas { base: CanvasBase { api, id }, users } = canvas;
        let mut out: Vec<File> = Vec::new();
        for u in it: users
            invariant
                it.seq() == c0.users@,
                view_files(out@) == c0.users@.take(it.index() as int).map_values(
                    |u: User| user_node(u),
                ),
        {
            let ghost out0 = out@;
            let ghost i = it.index() as int;
            let d = Directory::from_user(u);
            out.push(File::Directory(d));
            proof {
                crate::tree::lemma_view_files_push(out0, File::Directory(d));
                assert(c0.users@.take(i + 1).map_values(|u: User| user_node(u)) =~= c0.users@.take(
                    i,
                ).map_values(|u: User| user_node(u)).push(user_node(u)));
            }
        }
        proof {
            assert(c0.users@.take(c0.users@.len() as int) =~= c0.users@);
        }
        FileTree { api, root: FileBase::directory(id, now()).into_directory(out) }
    }
}

} // verus!
