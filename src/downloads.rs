//! Planning: flattening a change set into directories to create and files to fetch,
//! leaving out what the ignore rules exclude, and keeping the stored snapshot current.
use vstd::prelude::*;

use crate::diff::{diff_node, kinds_agree, well_formed};
use crate::download::{join_path, Download, DownloadView};
use crate::merge::merge_node;
use crate::tree::{Directory, File, FileTree, Node};

verus! {

/// The gitignore matcher of the ignore crate, held as an opaque value.
#[verifier::external_type_specification]
#[verifier::external_body]
pub struct ExGitignore(ignore::gitignore::Gitignore);

/// The paths that a set of gitignore rules excludes, each with whether it is taken as a
/// directory.
pub uninterp spec fn ignored_paths(rules: ignore::gitignore::Gitignore) -> Set<(Seq<char>, bool)>;

/// Relies on ignore's `Gitignore::matched` and `Match::is_ignore`: whether the rules exclude
/// `path`, taken as a directory or not. The answer depends on the rules, the path and the
/// kind alone.
#[verifier::external_body]
fn rules_ignore(rules: &ignore::gitignore::Gitignore, path: &String, is_dir: bool) -> (r: bool)
    ensures
        r == ignored_paths(*rules).contains((path@, is_dir)),
{
    rules.matched(path.as_str(), is_dir).is_ignore()
}

/// The downloads for the node `n` placed in the directory `parent`: directories in
/// parent-before-child order, then files. An excluded directory yields nothing, nor does
/// anything beneath it.
pub open spec fn plan_node(n: Node, parent: Seq<char>, ignored: Set<(Seq<char>, bool)>) -> (
    Seq<DownloadView>,
    Seq<DownloadView>,
)
    decreases n,
{
    let path = join_path(parent, n.base().name);
    match n {
        Node::Dir(b, c) => if ignored.contains((path, true)) {
            (Seq::empty(), Seq::empty())
        } else {
            let (ds, fs) = plan_children(c, path, ignored);
            (seq![DownloadView { path, base: b }] + ds, fs)
        },
        Node::Reg(b) => if ignored.contains((path, false)) {
            (Seq::empty(), Seq::empty())
        } else {
            (Seq::empty(), seq![DownloadView { path, base: b }])
        },
    }
}

/// The downloads for the nodes `c`, in order, placed in the directory `parent`.
pub open spec fn plan_children(c: Seq<Node>, parent: Seq<char>, ignored: Set<(Seq<char>, bool)>) -> (
    Seq<DownloadView>,
    Seq<DownloadView>,
)
    decreases c,
{
    if c.len() == 0 {
        (Seq::empty(), Seq::empty())
    } else {
        let (d1, f1) = plan_children(c.drop_last(), parent, ignored);
        let (d2, f2) = plan_node(c.last(), parent, ignored);
        (d1 + d2, f1 + f2)
    }
}

/// Each directory of `ds` goes directly into `parent` or into a directory listed before it.
pub open spec fn parents_first(ds: Seq<DownloadView>, parent: Seq<char>) -> bool {
    forall|i: int|
        0 <= i < ds.len() ==> #[trigger] ds[i].path == join_path(parent, ds[i].base.name) || exists|
            j: int,
        | 0 <= j < i && ds[i].path == join_path(#[trigger] ds[j].path, ds[i].base.name)
}

/// Each file of `fs` goes directly into `parent` or into a directory of `ds`.
pub open spec fn files_placed(fs: Seq<DownloadView>, ds: Seq<DownloadView>, parent: Seq<char>) -> bool {
    forall|i: int|
        0 <= i < fs.len() ==> #[trigger] fs[i].path == join_path(parent, fs[i].base.name) || exists|
            j: int,
        | 0 <= j < ds.len() && fs[i].path == join_path(#[trigger] ds[j].path, fs[i].base.name)
}

proof fn lemma_placed_concat(
    d1: Seq<DownloadView>,
    f1: Seq<DownloadView>,
    d2: Seq<DownloadView>,
    f2: Seq<DownloadView>,
    parent: Seq<char>,
)
    requires
        parents_first(d1, parent),
        files_placed(f1, d1, parent),
        parents_first(d2, parent),
        files_placed(f2, d2, parent),
    ensures
        parents_first(d1 + d2, parent),
        files_placed(f1 + f2, d1 + d2, parent),
{
    let d = d1 + d2;
    let f = f1 + f2;
    assert forall|i: int| 0 <= i < d.len() implies #[trigger] d[i].path == join_path(
        parent,
        d[i].base.name,
    ) || exists|j: int| 0 <= j < i && d[i].path == join_path(#[trigger] d[j].path, d[i].base.name) by {
        if i < d1.len() {
            assert(d[i] == d1[i]);
            if d1[i].path != join_path(parent, d1[i].base.name) {
                let j = choose|j: int|
                    0 <= j < i && d1[i].path == join_path(#[trigger] d1[j].path, d1[i].base.name);
                assert(d[j] == d1[j]);
            }
        } else {
            let k = i - d1.len();
            assert(d[i] == d2[k]);
            if d2[k].path != join_path(parent, d2[k].base.name) {
                let j = choose|j: int|
                    0 <= j < k && d2[k].path == join_path(#[trigger] d2[j].path, d2[k].base.name);
                assert(d[j + d1.len()] == d2[j]);
            }
        }
    }
    assert forall|i: int| 0 <= i < f.len() implies #[trigger] f[i].path == join_path(
        parent,
        f[i].base.name,
    ) || exists|j: int| 0 <= j < d.len() && f[i].path == join_path(#[trigger] d[j].path, f[i].base.name) by {
        if i < f1.len() {
            assert(f[i] == f1[i]);
            if f1[i].path != join_path(parent, f1[i].base.name) {
                let j = choose|j: int|
                    0 <= j < d1.len() && f1[i].path == join_path(#[trigger] d1[j].path, f1[i].base.name);
                assert(d[j] == d1[j]);
            }
        } else {
            let k = i - f1.len();
            assert(f[i] == f2[k]);
            if f2[k].path != join_path(parent, f2[k].base.name) {
                let j = choose|j: int|
                    0 <= j < d2.len() && f2[k].path == join_path(#[trigger] d2[j].path, f2[k].base.name);
                assert(d[j + d1.len()] == d2[j]);
            }
        }
    }
}

/// The planned directories come parents first: each goes directly into the directory that
/// planning started from, or into a directory planned before it. Each planned file goes
/// into that directory or into a planned directory.
pub proof fn lemma_plan_parents_first(n: Node, parent: Seq<char>, ignored: Set<(Seq<char>, bool)>)
    ensures
        parents_first(plan_node(n, parent, ignored).0, parent),
        files_placed(plan_node(n, parent, ignored).1, plan_node(n, parent, ignored).0, parent),
    decreases n,
{
    let path = join_path(parent, n.base().name);
    if let Node::Dir(b, c) = n {
        if !ignored.contains((path, true)) {
            lemma_plan_children_parents_first(c, path, ignored);
            let (ds, fs) = plan_children(c, path, ignored);
            let me = DownloadView { path, base: b };
            let d = seq![me] + ds;
            assert forall|i: int| 0 <= i < d.len() implies #[trigger] d[i].path == join_path(
                parent,
                d[i].base.name,
            ) || exists|j: int| 0 <= j < i && d[i].path == join_path(#[trigger] d[j].path, d[i].base.name) by {
                if i > 0 {
                    assert(d[i] == ds[i - 1]);
                    if ds[i - 1].path == join_path(path, ds[i - 1].base.name) {
                        assert(d[0] == me);
                        assert(d[i].path == join_path(d[0].path, d[i].base.name));
                    } else {
                        let j = choose|j: int|
                            0 <= j < i - 1 && ds[i - 1].path == join_path(
                                #[trigger] ds[j].path,
                                ds[i - 1].base.name,
                            );
                        assert(d[j + 1] == ds[j]);
                        assert(d[i].path == join_path(d[j + 1].path, d[i].base.name));
                    }
                } else {
                    assert(d[0] == me);
                }
            }
            assert forall|i: int| 0 <= i < fs.len() implies #[trigger] fs[i].path == join_path(
                parent,
                fs[i].base.name,
            ) || exists|j: int| 0 <= j < d.len() && fs[i].path == join_path(#[trigger] d[j].path, fs[i].base.name) by {
                if fs[i].path == join_path(path, fs[i].base.name) {
                    assert(d[0] == me);
                    assert(fs[i].path == join_path(d[0].path, fs[i].base.name));
                } else {
                    let j = choose|j: int|
                        0 <= j < ds.len() && fs[i].path == join_path(#[trigger] ds[j].path, fs[i].base.name);
                    assert(d[j + 1] == ds[j]);
                    assert(fs[i].path == join_path(d[j + 1].path, fs[i].base.name));
                }
            }
        }
    }
}

proof fn lemma_plan_children_parents_first(
    c: Seq<Node>,
    parent: Seq<char>,
    ignored: Set<(Seq<char>, bool)>,
)
    ensures
        parents_first(plan_children(c, parent, ignored).0, parent),
        files_placed(plan_children(c, parent, ignored).1, plan_children(c, parent, ignored).0, parent),
    decreases c,
{
    if c.len() > 0 {
        lemma_plan_children_parents_first(c.drop_last(), parent, ignored);
        lemma_plan_parents_first(c.last(), parent, ignored);
        let (d1, f1) = plan_children(c.drop_last(), parent, ignored);
        let (d2, f2) = plan_node(c.last(), parent, ignored);
        lemma_placed_concat(d1, f1, d2, f2, parent);
    }
}

pub open spec fn view_downloads(s: Seq<Download>) -> Seq<DownloadView> {
    s.map_values(|d: Download| d@)
}

/// Why a fetched snapshot cannot be compared with the stored one.
#[derive(Clone, Copy, Debug, PartialEq, Eq, Structural)]
pub enum TreeError {
    /// The two roots have different identifiers: they mirror different accounts.
    RootMismatch,
    /// Some directory of the fetched snapshot holds two children with one identifier.
    DuplicateInNew,
    /// Some directory of the stored snapshot holds two children with one identifier.
    DuplicateInStored,
    /// A directory and a regular file share an identifier path.
    KindMismatch,
}

/// What stays the same through a sync pass: where the mirror lives, its ignore rules, and
/// the snapshot of what was mirrored.
pub struct DownloadsImmut {
    pub root: String,
    pub ignore: ignore::gitignore::Gitignore,
    pub current_file_tree: FileTree,
}

/// What a sync pass accumulates: directories to create and files to fetch.
pub struct DownloadsMut {
    pub directories: Vec<Download>,
    pub files: Vec<Download>,
}

/// A sync pass over one mirror.
pub struct Downloads {
    pub immut: DownloadsImmut,
    pub pending: DownloadsMut,
}

impl DownloadsImmut {
    pub open spec fn ignored(&self) -> Set<(Seq<char>, bool)> {
        ignored_paths(self.ignore)
    }

    pub fn root(&self) -> (r: &String)
        ensures
            r == self.root,
    {
        &self.root
    }

    /// Whether the ignore rules let `download` through.
    pub fn can_add(&self, download: &Download, is_dir: bool) -> (r: bool)
        ensures
            r == !self.ignored().contains((download@.path, is_dir)),
    {
        !rules_ignore(&self.ignore, &download.path, is_dir)
    }
}

impl DownloadsMut {
    pub fn new() -> (r: DownloadsMut)
        ensures
            r.directories@.len() == 0,
            r.files@.len() == 0,
    {
        DownloadsMut { directories: Vec::new(), files: Vec::new() }
    }

    /// Appends `download` to the directories or to the files.
    pub fn add(&mut self, download: Download, is_dir: bool)
        ensures
            is_dir ==> final(self).directories@ == old(self).directories@.push(download),
            is_dir ==> final(self).files@ == old(self).files@,
            !is_dir ==> final(self).files@ == old(self).files@.push(download),
            !is_dir ==> final(self).directories@ == old(self).directories@,
    {
        if is_dir {
            self.directories.push(download);
        } else {
            self.files.push(download);
        }
    }
}

proof fn lemma_view_downloads_push(s: Seq<Download>, d: Download)
    ensures
        view_downloads(s.push(d)) == view_downloads(s).push(d@),
{
    assert(view_downloads(s.push(d)) =~= view_downloads(s).push(d@));
}

impl Downloads {
    pub fn new(immut: DownloadsImmut) -> (r: Downloads)
        ensures
            r.immut == immut,
            r.pending.directories@.len() == 0,
            r.pending.files@.len() == 0,
    {
        Downloads { immut, pending: DownloadsMut::new() }
    }

    /// Records `download` where the ignore rules let it through; says whether it did.
    pub fn add_download(
        self_immut: &DownloadsImmut,
        self_mut: &mut DownloadsMut,
        download: Download,
        is_dir: bool,
    ) -> (added: bool)
        ensures
            added == !self_immut.ignored().contains((download@.path, is_dir)),
            added && is_dir ==> final(self_mut).directories@ == old(self_mut).directories@.push(
                download,
            ),
            !(added && is_dir) ==> final(self_mut).directories@ == old(self_mut).directories@,
            added && !is_dir ==> final(self_mut).files@ == old(self_mut).files@.push(download),
            !(added && !is_dir) ==> final(self_mut).files@ == old(self_mut).files@,
    {
        let added = self_immut.can_add(&download, is_dir);
        if added {
            self_mut.add(download, is_dir);
        }
        added
    }

    /// Plans the directory `dir`, placed in the directory `path`, and everything beneath it.
    pub fn add_directory(
        self_immut: &DownloadsImmut,
        self_mut: &mut DownloadsMut,
        dir: &Directory,
        path: &String,
    )
        ensures
            view_downloads(final(self_mut).directories@) == view_downloads(
                old(self_mut).directories@,
            ) + plan_node(dir@, path@, self_immut.ignored()).0,
            view_downloads(final(self_mut).files@) == view_downloads(old(self_mut).files@)
                + plan_node(dir@, path@, self_immut.ignored()).1,
        decreases dir,
    {
        let ghost ign = self_immut.ignored();
        let ghost d0 = view_downloads(old(self_mut).directories@);
        let ghost f0 = view_downloads(old(self_mut).files@);
        let download = dir.base.copy().into_download(path);
        let dir_path = download.path.clone();
        let ghost dl = download@;
        if !Self::add_download(self_immut, self_mut, download, true) {
            return;
        }
        proof {
            lemma_view_downloads_push(old(self_mut).directories@, download);
        }
        let ghost c = crate::tree::view_files(dir.files@);
        proof {
            crate::tree::lemma_view_files(dir.files@);
        }
        let n = dir.files.len();
        for i in 0..n
            invariant
                n == dir.files.len(),
                ign == self_immut.ignored(),
                c == crate::tree::view_files(dir.files@),
                c.len() == n,
                forall|j: int| 0 <= j < n ==> #[trigger] c[j] == dir.files@[j]@,
                dir_path@ == dl.path,
                view_downloads(self_mut.directories@) == d0.push(dl) + plan_children(
                    c.take(i as int),
                    dl.path,
                    ign,
                ).0,
                view_downloads(self_mut.files@) == f0 + plan_children(
                    c.take(i as int),
                    dl.path,
                    ign,
                ).1,
        {
            let ghost ds = view_downloads(self_mut.directories@);
            let ghost fs = view_downloads(self_mut.files@);
            let ghost prev = plan_children(c.take(i as int), dl.path, ign);
            proof {
                assert(c.take(i + 1).drop_last() =~= c.take(i as int));
                assert(c.take(i + 1).last() == c[i as int]);
                assert(decreases_to!(dir.files => dir.files[i as int]));
            }
            match &dir.files[i] {
                File::Directory(sub) => {
                    Self::add_directory(self_immut, self_mut, sub, &dir_path);
                },
                File::RegularFile(file) => {
                    let download = file.base.copy().into_download(&dir_path);
                    let ghost dv = download@;
                    let ghost fs0 = self_mut.files@;
                    if Self::add_download(self_immut, self_mut, download, false) {
                        proof {
                            lemma_view_downloads_push(fs0, download);
                        }
                    }
                },
            }
            proof {
                let step = plan_node(c[i as int], dl.path, ign);
                assert(plan_children(c.take(i + 1), dl.path, ign) == (prev.0 + step.0, prev.1
                    + step.1));
                assert(d0.push(dl) + (prev.0 + step.0) =~= (d0.push(dl) + prev.0) + step.0);
                assert(f0 + (prev.1 + step.1) =~= (f0 + prev.1) + step.1);
            }
        }
        proof {
            assert(c.take(n as int) =~= c);
            assert(d0.push(dl) + plan_children(c, dl.path, ign).0 =~= d0 + (seq![dl]
                + plan_children(c, dl.path, ign).0));
        }
    }

    /// Compares `file_tree` with the stored snapshot. Where something is new or newer, plans
    /// the downloads of the change set under the root and folds it into the snapshot. Says
    /// whether the snapshot changed, and so is to be stored again.
    pub fn add_file_tree(&mut self, file_tree: FileTree) -> (changed: bool)
        requires
            file_tree.root@.id() == old(self).immut.current_file_tree.root@.id(),
            kinds_agree(file_tree.root@, old(self).immut.current_file_tree.root@),
            well_formed(file_tree.root@),
            well_formed(old(self).immut.current_file_tree.root@),
        ensures
            ({
                let old_root = old(self).immut.current_file_tree.root@;
                let ign = old(self).immut.ignored();
                match diff_node(file_tree.root@, old_root) {
                    None => {
                        &&& !changed
                        &&& final(self).immut.current_file_tree.root@ == old_root
                        &&& final(self).pending.directories@ == old(self).pending.directories@
                        &&& final(self).pending.files@ == old(self).pending.files@
                    },
                    Some(d) => {
                        &&& changed
                        &&& final(self).immut.current_file_tree.root@ == merge_node(old_root, d)
                        &&& view_downloads(final(self).pending.directories@) == view_downloads(
                            old(self).pending.directories@,
                        ) + plan_node(d, old(self).immut.root@, ign).0
                        &&& view_downloads(final(self).pending.files@) == view_downloads(
                            old(self).pending.files@,
                        ) + plan_node(d, old(self).immut.root@, ign).1
                    },
                }
            }),
            final(self).immut.root == old(self).immut.root,
            final(self).immut.ignore == old(self).immut.ignore,
            final(self).immut.current_file_tree.api == old(self).immut.current_file_tree.api,
    {
        proof {
            if diff_node(file_tree.root@, self.immut.current_file_tree.root@) is Some {
                crate::diff::lemma_diff_well_formed(
                    file_tree.root@,
                    self.immut.current_file_tree.root@,
                );
            }
        }
        let diff = match file_tree.diff(&self.immut.current_file_tree) {
            None => return false,
            Some(it) => it,
        };
        Self::add_directory(&self.immut, &mut self.pending, &diff.root, &self.immut.root);
        self.immut.current_file_tree.merge(diff);
        true
    }

    /// Checks that `file_tree` can be compared with the stored snapshot, then does what
    /// `add_file_tree` does. On an error nothing changes.
    pub fn try_add_file_tree(&mut self, file_tree: FileTree) -> (r: Result<bool, TreeError>)
        ensures
            ({
                let new = file_tree.root@;
                let old_root = old(self).immut.current_file_tree.root@;
                &&& (new.id() != old_root.id()) <==> r == Err::<bool, TreeError>(TreeError::RootMismatch)
                &&& (new.id() == old_root.id() && !well_formed(new)) <==> r == Err::<bool, TreeError>(
                    TreeError::DuplicateInNew,
                )
                &&& (new.id() == old_root.id() && well_formed(new) && !well_formed(old_root)) <==> r
                    == Err::<bool, TreeError>(TreeError::DuplicateInStored)
                &&& (new.id() == old_root.id() && well_formed(new) && well_formed(old_root)
                    && !kinds_agree(new, old_root)) <==> r == Err::<bool, TreeError>(
                    TreeError::KindMismatch,
                )
                &&& r is Err ==> *final(self) == *old(self)
                &&& r matches Ok(changed) ==> (changed <==> diff_node(new, old_root) is Some)
                &&& r matches Ok(_) ==> match diff_node(new, old_root) {
                    None => {
                        &&& final(self).immut.current_file_tree.root@ == old_root
                        &&& final(self).pending.directories@ == old(self).pending.directories@
                        &&& final(self).pending.files@ == old(self).pending.files@
                    },
                    Some(d) => {
                        &&& final(self).immut.current_file_tree.root@ == merge_node(old_root, d)
                        &&& view_downloads(final(self).pending.directories@) == view_downloads(
                            old(self).pending.directories@,
                        ) + plan_node(d, old(self).immut.root@, old(self).immut.ignored()).0
                        &&& view_downloads(final(self).pending.files@) == view_downloads(
                            old(self).pending.files@,
                        ) + plan_node(d, old(self).immut.root@, old(self).immut.ignored()).1
                    },
                }
            }),
    {
        if file_tree.root.base.id.id != self.immut.current_file_tree.root.base.id.id {
            return Err(TreeError::RootMismatch);
        }
        if !file_tree.root.is_well_formed() {
            return Err(TreeError::DuplicateInNew);
        }
        if !self.immut.current_file_tree.root.is_well_formed() {
            return Err(TreeError::DuplicateInStored);
        }
        if !file_tree.root.kinds_agree_with(&self.immut.current_file_tree.root) {
            return Err(TreeError::KindMismatch);
        }
        Ok(self.add_file_tree(file_tree))
    }
}

} // verus!
