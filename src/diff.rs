//! The change set between two snapshots: the nodes of the new one that are new or newer.
use vstd::prelude::*;

use crate::tree::{view_files, Directory, File, FileTree, Id, Node, RegularFile, lemma_view_files, lemma_view_files_push};

verus! {

broadcast use {vstd::std_specs::hash::group_hash_axioms, vstd::std_specs::vec::group_vec_axioms};

/// The index of the last node of `s` with identifier `id`, or -1 where there is none.
pub open spec fn find_last(s: Seq<Node>, id: Id) -> int
    decreases s.len(),
{
    if s.len() == 0 {
        -1
    } else if s.last().id() == id {
        s.len() - 1
    } else {
        find_last(s.drop_last(), id)
    }
}

/// Identifiers are unique among the nodes of `s`.
pub open spec fn unique_ids(s: Seq<Node>) -> bool {
    forall|i: int, j: int|
        0 <= i < s.len() && 0 <= j < s.len() && i != j ==> s[i].id() != s[j].id()
}

/// Identifiers are unique within every directory of the tree `n`.
pub open spec fn well_formed(n: Node) -> bool
    decreases n,
{
    &&& unique_ids(n.children())
    &&& forall|i: int| 0 <= i < n.children().len() ==> well_formed(#[trigger] n.children()[i])
}

/// Wherever `new` and `old` hold nodes under the same identifier path, both are directories
/// or both are regular files.
pub open spec fn kinds_agree(new: Node, old: Node) -> bool
    decreases new,
{
    match new {
        Node::Dir(_, nc) => match old {
            Node::Dir(_, oc) => forall|i: int|
                0 <= i < nc.len() && find_last(oc, #[trigger] nc[i].id()) >= 0 ==> kinds_agree(
                    nc[i],
                    oc[find_last(oc, nc[i].id())],
                ),
            Node::Reg(_) => false,
        },
        Node::Reg(_) => old is Reg,
    }
}

/// The change set of `new` against `old`: `None` where `new` is not strictly newer; else
/// `new` itself, and for a directory only those children that are new or changed.
pub open spec fn diff_node(new: Node, old: Node) -> Option<Node>
    decreases new,
{
    if !new.base().time.newer_than(old.base().time) {
        None
    } else {
        match new {
            Node::Dir(b, nc) => match old {
                Node::Dir(_, oc) => Some(Node::Dir(b, diff_children(nc, oc))),
                Node::Reg(_) => None,
            },
            Node::Reg(_) => match old {
                Node::Reg(_) => Some(new),
                Node::Dir(_, _) => None,
            },
        }
    }
}

/// The children of a newer directory that go into its change set, in order: those with no
/// counterpart among `oc`, and the change sets of the others where they are not empty.
pub open spec fn diff_children(nc: Seq<Node>, oc: Seq<Node>) -> Seq<Node>
    decreases nc,
{
    if nc.len() == 0 {
        Seq::empty()
    } else {
        let rest = diff_children(nc.drop_last(), oc);
        let c = nc.last();
        let k = find_last(oc, c.id());
        if k < 0 {
            rest.push(c)
        } else {
            match diff_node(c, oc[k]) {
                Some(d) => rest.push(d),
                None => rest,
            }
        }
    }
}

pub open spec fn view_opt<T: View>(o: Option<T>) -> Option<T::V> {
    match o {
        Some(t) => Some(t@),
        None => None,
    }
}

proof fn lemma_find_last_push(s: Seq<Node>, n: Node, id: Id)
    ensures
        find_last(s.push(n), id) == if n.id() == id {
            s.len() as int
        } else {
            find_last(s, id)
        },
{
    assert(s.push(n).drop_last() =~= s);
}

pub proof fn lemma_find_last_bounds(s: Seq<Node>, id: Id)
    ensures
        -1 <= find_last(s, id) < s.len(),
        find_last(s, id) >= 0 ==> s[find_last(s, id)].id() == id,
        find_last(s, id) < 0 ==> forall|i: int| 0 <= i < s.len() ==> s[i].id() != id,
    decreases s.len(),
{
    if s.len() > 0 {
        lemma_find_last_bounds(s.drop_last(), id);
        if s.last().id() != id {
            assert forall|i: int| 0 <= i < s.len() - 1 implies s[i] == s.drop_last()[i] by {}
        }
    }
}

impl File {
    pub fn id(&self) -> (r: Id)
        ensures
            r == self@.id(),
    {
        match self {
            File::Directory(d) => d.base.id.id,
            File::RegularFile(f) => f.base.id.id,
        }
    }

    /// The change set of `self` against `old`, a node under the same identifier.
    pub fn diff(self, old: &File) -> (r: Option<File>)
        requires
            kinds_agree(self@, old@),
        ensures
            view_opt(r) == diff_node(self@, old@),
        decreases self,
    {
        match self {
            File::Directory(new) => match old {
                File::Directory(old) => match new.diff_id_unchecked(old) {
                    Some(d) => Some(File::Directory(d)),
                    None => None,
                },
                File::RegularFile(_) => None,
            },
            File::RegularFile(new) => match old {
                File::RegularFile(old) => match new.diff_id_unchecked(old) {
                    Some(f) => Some(File::RegularFile(f)),
                    None => None,
                },
                File::Directory(_) => None,
            },
        }
    }
}

impl RegularFile {
    pub fn diff_id_unchecked(self, old: &RegularFile) -> (r: Option<RegularFile>)
        ensures
            view_opt(r) == diff_node(self@, old@),
    {
        if self.base.time.is_newer_than(&old.base.time) {
            Some(self)
        } else {
            None
        }
    }

    /// The change set of `self` against `old`; `None` also where their identifiers differ.
    pub fn diff(self, old: &RegularFile) -> (r: Option<RegularFile>)
        ensures
            self@.id() == old@.id() ==> view_opt(r) == diff_node(self@, old@),
            self@.id() != old@.id() ==> r.is_none(),
    {
        if self.base.id.id == old.base.id.id {
            self.diff_id_unchecked(old)
        } else {
            None
        }
    }
}

impl Directory {
    /// Maps each identifier among the children to the index of the last child that has it.
    pub fn id_to_file_map(&self) -> (m: std::collections::HashMap<Id, usize>)
        ensures
            forall|id: Id| #[trigger]
                m@.contains_key(id) == (find_last(self@.children(), id) >= 0),
            forall|id: Id|
                m@.contains_key(id) ==> #[trigger] m@[id] as int == find_last(
                    self@.children(),
                    id,
                ),
    {
        let ghost s = view_files(self.files@);
        proof {
            lemma_view_files(self.files@);
        }
        let mut m: std::collections::HashMap<Id, usize> = std::collections::HashMap::new();
        let n = self.files.len();
        for i in 0..n
            invariant
                n == self.files.len(),
                s == view_files(self.files@),
                s.len() == self.files.len(),
                forall|j: int| 0 <= j < self.files.len() ==> #[trigger] s[j] == self.files@[j]@,
                forall|id: Id| #[trigger]
                    m@.contains_key(id) == (find_last(s.take(i as int), id) >= 0),
                forall|id: Id|
                    m@.contains_key(id) ==> #[trigger] m@[id] as int == find_last(
                        s.take(i as int),
                        id,
                    ),
        {
            let id = self.files[i].id();
            m.insert(id, i);
            proof {
                assert(s.take(i + 1) =~= s.take(i as int).push(s[i as int]));
                assert forall|x: Id| true implies find_last(s.take(i + 1), x) == if s[i as int].id()
                    == x {
                    i as int
                } else {
                    find_last(s.take(i as int), x)
                } by {
                    lemma_find_last_push(s.take(i as int), s[i as int], x);
                }
            }
        }
        assert(s.take(n as int) =~= s);
        m
    }

    pub fn diff_id_unchecked(self, old: &Directory) -> (r: Option<Directory>)
        requires
            kinds_agree(self@, old@),
        ensures
            view_opt(r) == diff_node(self@, old@),
        decreases self,
    {
        if !self.base.time.is_newer_than(&old.base.time) {
            return None;
        }
        let old_map = old.id_to_file_map();
        let ghost me = self;
        let ghost nc = view_files(self.files@);
        let ghost oc = view_files(old.files@);
        proof {
            lemma_view_files(self.files@);
            lemma_view_files(old.files@);
        }
        let Directory { base, files } = self;
        let mut out: Vec<File> = Vec::new();
        for f in it: files
            invariant
                me == self,
                it.seq() == me.files@,
                nc == view_files(me.files@),
                oc == view_files(old.files@),
                nc.len() == me.files@.len(),
                oc.len() == old.files@.len(),
                forall|j: int| 0 <= j < me.files@.len() ==> #[trigger] nc[j] == me.files@[j]@,
                forall|j: int| 0 <= j < old.files@.len() ==> #[trigger] oc[j] == old.files@[j]@,
                kinds_agree(me@, old@),
                forall|id: Id| #[trigger] old_map@.contains_key(id) == (find_last(oc, id) >= 0),
                forall|id: Id|
                    old_map@.contains_key(id) ==> #[trigger] old_map@[id] as int == find_last(
                        oc,
                        id,
                    ),
                view_files(out@) == diff_children(nc.take(it.index() as int), oc),
        {
            let ghost i = it.index() as int;
            let ghost out0 = out@;
            proof {
                assert(nc.take(i + 1).drop_last() =~= nc.take(i));
                assert(nc.take(i + 1).last() == nc[i]);
                assert(f == me.files@[i]);
                assert(decreases_to!(me => me.files));
                assert(decreases_to!(me.files => me.files[i]));
                assert(decreases_to!(me => f));
                lemma_find_last_bounds(oc, nc[i].id());
            }
            let id = f.id();
            match old_map.get(&id) {
                None => {
                    out.push(f);
                    proof {
                        lemma_view_files_push(out0, f);
                    }
                },
                Some(k) => {
                    let k = *k;
                    proof {
                        assert(me@ matches Node::Dir(_, c) && c == nc);
                        assert(old@ matches Node::Dir(_, c) && c == oc);
                        assert(kinds_agree(nc[i], oc[find_last(oc, nc[i].id())]));
                    }
                    match f.diff(&old.files[k]) {
                        Some(d) => {
                            out.push(d);
                            proof {
                                lemma_view_files_push(out0, d);
                            }
                        },
                        None => {},
                    }
                },
            }
        }
        proof {
            assert(nc.take(me.files@.len() as int) =~= nc);
        }
        Some(Directory { base, files: out })
    }

    /// The change set of `self` against `old`; `None` also where their identifiers differ.
    pub fn diff(self, old: &Directory) -> (r: Option<Directory>)
        requires
            kinds_agree(self@, old@),
        ensures
            self@.id() == old@.id() ==> view_opt(r) == diff_node(self@, old@),
            self@.id() != old@.id() ==> r.is_none(),
    {
        if self.base.id.id == old.base.id.id {
            self.diff_id_unchecked(old)
        } else {
            None
        }
    }
}

impl FileTree {
    /// The change set of `self` against `old`, keeping the account of `self`.
    pub fn diff(self, old: &FileTree) -> (r: Option<FileTree>)
        requires
            self.root@.id() == old.root@.id(),
            kinds_agree(self.root@, old.root@),
        ensures
            r matches Some(t) ==> diff_node(self.root@, old.root@) == Some(t.root@) && t.api
                == self.api,
            r is None ==> diff_node(self.root@, old.root@) is None,
    {
        let FileTree { api, root } = self;
        match root.diff_id_unchecked(&old.root) {
            Some(root) => Some(FileTree { api, root }),
            None => None,
        }
    }
}


/// Every node of the change set `d` that has a counterpart in `old`, found by following
/// identifiers down from the root, is strictly newer than that counterpart.
pub open spec fn only_newer(d: Node, old: Node) -> bool
    decreases d,
{
    &&& d.base().time.newer_than(old.base().time)
    &&& match d {
        Node::Dir(_, dc) => forall|i: int|
            0 <= i < dc.len() && find_last(old.children(), #[trigger] dc[i].id()) >= 0
                ==> only_newer(dc[i], old.children()[find_last(old.children(), dc[i].id())]),
        Node::Reg(_) => true,
    }
}

/// Every node of `d` has a counterpart of the same kind in `n`, found by following
/// identifiers down from the root, with the same identity, name, times and size.
pub open spec fn contained_in(d: Node, n: Node) -> bool
    decreases d,
{
    &&& d.base() == n.base()
    &&& (d is Dir) == (n is Dir)
    &&& match d {
        Node::Dir(_, dc) => forall|i: int|
            0 <= i < dc.len() ==> find_last(n.children(), #[trigger] dc[i].id()) >= 0
                && contained_in(dc[i], n.children()[find_last(n.children(), dc[i].id())]),
        Node::Reg(_) => true,
    }
}

pub proof fn lemma_find_last_unique(s: Seq<Node>, i: int)
    requires
        unique_ids(s),
        0 <= i < s.len(),
    ensures
        find_last(s, s[i].id()) == i,
{
    lemma_find_last_bounds(s, s[i].id());
}

/// `n` comes from the child `nc[j]`: unchanged where it has no counterpart in `oc`, else as
/// the change set against that counterpart.
pub open spec fn diff_source(nc: Seq<Node>, oc: Seq<Node>, j: int, n: Node) -> bool {
    let k = find_last(oc, nc[j].id());
    &&& 0 <= j < nc.len()
    &&& k < 0 ==> n == nc[j]
    &&& k >= 0 ==> diff_node(nc[j], oc[k]) == Some(n)
}

/// Each node of `diff_children(nc, oc)` comes from a node of `nc`: unchanged where it has no
/// counterpart in `oc`, else as the change set against that counterpart.
pub proof fn lemma_diff_children_source(nc: Seq<Node>, oc: Seq<Node>, x: int)
    requires
        0 <= x < diff_children(nc, oc).len(),
    ensures
        exists|j: int| #[trigger] diff_source(nc, oc, j, diff_children(nc, oc)[x]),
    decreases nc.len(),
{
    let rest = diff_children(nc.drop_last(), oc);
    if x < rest.len() {
        lemma_diff_children_source(nc.drop_last(), oc, x);
        let j = choose|j: int| #[trigger] diff_source(nc.drop_last(), oc, j, rest[x]);
        assert(nc.drop_last()[j] == nc[j]);
        assert(diff_source(nc, oc, j, diff_children(nc, oc)[x]));
    } else {
        assert(nc[nc.len() - 1] == nc.last());
        assert(diff_source(nc, oc, nc.len() - 1, diff_children(nc, oc)[x]));
    }
}

/// A change set keeps the identifier of the node that it was computed from.
pub proof fn lemma_diff_keeps_base(new: Node, old: Node)
    requires
        diff_node(new, old) is Some,
    ensures
        diff_node(new, old)->0.base() == new.base(),
        (diff_node(new, old)->0 is Dir) == (new is Dir),
{
}

/// Comparing a well-formed tree with itself meets no directory paired with a regular file.
pub proof fn lemma_kinds_agree_with_itself(t: Node)
    requires
        well_formed(t),
    ensures
        kinds_agree(t, t),
    decreases t,
{
    if let Node::Dir(_, c) = t {
        assert forall|i: int| 0 <= i < c.len() && find_last(c, #[trigger] c[i].id()) >= 0 implies kinds_agree(
            c[i],
            c[find_last(c, c[i].id())],
        ) by {
            lemma_find_last_unique(c, i);
            assert(well_formed(t.children()[i]));
            lemma_kinds_agree_with_itself(c[i]);
        }
    }
}

/// A snapshot compared with itself yields no change set.
pub proof fn lemma_diff_of_itself(t: Node)
    ensures
        diff_node(t, t) is None,
{
}

/// A change set holds only nodes that are new, or strictly newer than their counterpart in
/// the old snapshot: a node whose time did not advance never appears in it.
pub proof fn lemma_diff_only_newer(new: Node, old: Node)
    requires
        diff_node(new, old) is Some,
    ensures
        only_newer(diff_node(new, old)->0, old),
    decreases new,
{
    let d = diff_node(new, old)->0;
    if let Node::Dir(_, nc) = new {
        let oc = old.children();
        let dc = diff_children(nc, oc);
        assert(d == Node::Dir(new.base(), dc));
        assert forall|x: int|
            0 <= x < dc.len() && find_last(oc, #[trigger] dc[x].id()) >= 0 implies only_newer(
            dc[x],
            oc[find_last(oc, dc[x].id())],
        ) by {
            lemma_diff_children_source(nc, oc, x);
            let j = choose|j: int| #[trigger] diff_source(nc, oc, j, dc[x]);
            let k = find_last(oc, nc[j].id());
            if k >= 0 {
                lemma_diff_keeps_base(nc[j], oc[k]);
                lemma_diff_only_newer(nc[j], oc[k]);
            }
        }
    }
}

/// Each node in a tree is contained in that tree.
proof fn lemma_contained_in_itself(t: Node)
    requires
        well_formed(t),
    ensures
        contained_in(t, t),
    decreases t,
{
    if let Node::Dir(_, c) = t {
        assert forall|i: int| 0 <= i < c.len() implies find_last(c, #[trigger] c[i].id()) >= 0
            && contained_in(c[i], c[find_last(c, c[i].id())]) by {
            lemma_find_last_unique(c, i);
            assert(well_formed(t.children()[i]));
            lemma_contained_in_itself(c[i]);
        }
    }
}

/// Every node of a change set has a counterpart in the new snapshot, under the same
/// identifiers, with the same identity, name, times and size; so its effective modification
/// time is that of the new snapshot.
pub proof fn lemma_diff_contained(new: Node, old: Node)
    requires
        well_formed(new),
        diff_node(new, old) is Some,
    ensures
        contained_in(diff_node(new, old)->0, new),
    decreases new,
{
    let d = diff_node(new, old)->0;
    if let Node::Dir(_, nc) = new {
        let oc = old.children();
        let dc = diff_children(nc, oc);
        assert(d == Node::Dir(new.base(), dc));
        assert forall|x: int| 0 <= x < dc.len() implies find_last(nc, #[trigger] dc[x].id()) >= 0
            && contained_in(dc[x], nc[find_last(nc, dc[x].id())]) by {
            lemma_diff_children_source(nc, oc, x);
            let j = choose|j: int| #[trigger] diff_source(nc, oc, j, dc[x]);
            let k = find_last(oc, nc[j].id());
            lemma_find_last_unique(nc, j);
            assert(well_formed(new.children()[j]));
            if k >= 0 {
                lemma_diff_keeps_base(nc[j], oc[k]);
                lemma_diff_contained(nc[j], oc[k]);
            } else {
                lemma_contained_in_itself(nc[j]);
            }
        }
    }
}

/// The change set of a well-formed tree is well-formed, and compares with the old tree
/// without meeting a directory paired with a regular file.
pub proof fn lemma_diff_well_formed(new: Node, old: Node)
    requires
        well_formed(new),
        kinds_agree(new, old),
        diff_node(new, old) is Some,
    ensures
        well_formed(diff_node(new, old)->0),
        kinds_agree(diff_node(new, old)->0, old),
    decreases new,
{
    if let Node::Dir(_, nc) = new {
        let oc = old.children();
        let dc = diff_children(nc, oc);
        lemma_diff_children_unique(nc, oc);
        assert forall|x: int| 0 <= x < dc.len() implies well_formed(#[trigger] dc[x]) && (find_last(
            oc,
            dc[x].id(),
        ) >= 0 ==> kinds_agree(dc[x], oc[find_last(oc, dc[x].id())])) by {
            lemma_diff_children_source(nc, oc, x);
            let j = choose|j: int| #[trigger] diff_source(nc, oc, j, dc[x]);
            let k = find_last(oc, nc[j].id());
            assert(well_formed(new.children()[j]));
            if k >= 0 {
                lemma_diff_keeps_base(nc[j], oc[k]);
                lemma_diff_well_formed(nc[j], oc[k]);
            }
        }
        let d = diff_node(new, old)->0;
        assert(d.children() == dc);
    }
}

/// The identifiers of `diff_children(nc, oc)` are those of some of `nc`, unique where those
/// of `nc` are.
pub proof fn lemma_diff_children_unique(nc: Seq<Node>, oc: Seq<Node>)
    requires
        unique_ids(nc),
    ensures
        unique_ids(diff_children(nc, oc)),
        forall|x: int|
            0 <= x < diff_children(nc, oc).len() ==> exists|j: int|
                0 <= j < nc.len() && nc[j].id() == #[trigger] diff_children(nc, oc)[x].id(),
    decreases nc.len(),
{
    let dc = diff_children(nc, oc);
    if nc.len() > 0 {
        let init = nc.drop_last();
        assert(unique_ids(init)) by {
            assert forall|i: int, j: int|
                0 <= i < init.len() && 0 <= j < init.len() && i != j implies init[i].id()
                != init[j].id() by {
                assert(init[i] == nc[i] && init[j] == nc[j]);
            }
        }
        lemma_diff_children_unique(init, oc);
        let rest = diff_children(init, oc);
        let c = nc.last();
        let k = find_last(oc, c.id());
        if k >= 0 {
            if diff_node(c, oc[k]) is Some {
                lemma_diff_keeps_base(c, oc[k]);
            }
        }
        assert forall|x: int| 0 <= x < rest.len() implies #[trigger] rest[x].id() != c.id() by {
            let j = choose|j: int| 0 <= j < init.len() && init[j].id() == #[trigger] rest[x].id();
            assert(init[j] == nc[j]);
        }
        assert forall|x: int| 0 <= x < dc.len() implies exists|j: int|
            0 <= j < nc.len() && nc[j].id() == #[trigger] dc[x].id() by {
            if x < rest.len() {
                let j = choose|j: int| 0 <= j < init.len() && init[j].id() == #[trigger] rest[x].id();
                assert(init[j] == nc[j]);
            } else {
                assert(nc[nc.len() - 1] == c);
            }
        }
    }
}

/// `c` is new against the old children `oc`, or its change set against its counterpart
/// there is not empty.
pub open spec fn is_changed(c: Node, oc: Seq<Node>) -> bool {
    find_last(oc, c.id()) < 0 || diff_node(c, oc[find_last(oc, c.id())]) is Some
}

/// Each changed child of `nc` gives a node of `diff_children(nc, oc)`.
pub proof fn lemma_diff_children_complete(nc: Seq<Node>, oc: Seq<Node>, j: int)
    requires
        0 <= j < nc.len(),
        is_changed(nc[j], oc),
    ensures
        exists|x: int|
            0 <= x < diff_children(nc, oc).len() && #[trigger] diff_source(
                nc,
                oc,
                j,
                diff_children(nc, oc)[x],
            ),
    decreases nc.len(),
{
    let dc = diff_children(nc, oc);
    let rest = diff_children(nc.drop_last(), oc);
    if j == nc.len() - 1 {
        assert(nc.last() == nc[j]);
        assert(diff_source(nc, oc, j, dc[rest.len() as int]));
    } else {
        assert(nc.drop_last()[j] == nc[j]);
        lemma_diff_children_complete(nc.drop_last(), oc, j);
        let x = choose|x: int|
            0 <= x < rest.len() && #[trigger] diff_source(nc.drop_last(), oc, j, rest[x]);
        assert(dc[x] == rest[x]);
        assert(diff_source(nc, oc, j, dc[x]));
    }
}

/// Identifiers are unique in `s` exactly when each node is the last with its identifier.
proof fn lemma_unique_by_find_last(s: Seq<Node>)
    ensures
        unique_ids(s) == (forall|i: int| 0 <= i < s.len() ==> find_last(s, #[trigger] s[i].id()) == i),
{
    if unique_ids(s) {
        assert forall|i: int| 0 <= i < s.len() implies find_last(s, #[trigger] s[i].id()) == i by {
            lemma_find_last_unique(s, i);
        }
    }
    if forall|i: int| 0 <= i < s.len() ==> find_last(s, #[trigger] s[i].id()) == i {
        assert forall|i: int, j: int|
            0 <= i < s.len() && 0 <= j < s.len() && i != j implies s[i].id() != s[j].id() by {
            assert(find_last(s, s[i].id()) == i);
            assert(find_last(s, s[j].id()) == j);
        }
    }
}

impl File {
    /// Whether identifiers are unique within every directory of this tree.
    pub fn is_well_formed(&self) -> (r: bool)
        ensures
            r == well_formed(self@),
        decreases self,
    {
        match self {
            File::Directory(d) => d.is_well_formed(),
            File::RegularFile(_) => true,
        }
    }

    /// Whether, wherever `self` and `old` hold nodes under the same identifier path, both are
    /// directories or both are regular files.
    pub fn kinds_agree_with(&self, old: &File) -> (r: bool)
        ensures
            r == kinds_agree(self@, old@),
        decreases self,
    {
        match self {
            File::Directory(d) => match old {
                File::Directory(o) => d.kinds_agree_with(o),
                File::RegularFile(_) => false,
            },
            File::RegularFile(_) => match old {
                File::RegularFile(_) => true,
                File::Directory(_) => false,
            },
        }
    }
}

impl Directory {
    /// Whether identifiers are unique within every directory of this tree.
    pub fn is_well_formed(&self) -> (r: bool)
        ensures
            r == well_formed(self@),
        decreases self,
    {
        let map = self.id_to_file_map();
        let ghost c = view_files(self.files@);
        proof {
            lemma_view_files(self.files@);
            lemma_unique_by_find_last(c);
        }
        let n = self.files.len();
        let mut i: usize = 0;
        while i < n
            invariant
                n == self.files.len(),
                i <= n,
                c == view_files(self.files@),
                c.len() == n,
                forall|j: int| 0 <= j < n ==> #[trigger] c[j] == self.files@[j]@,
                forall|id: Id| #[trigger] map@.contains_key(id) == (find_last(c, id) >= 0),
                forall|id: Id| map@.contains_key(id) ==> #[trigger] map@[id] as int == find_last(c, id),
                forall|j: int|
                    0 <= j < i ==> find_last(c, #[trigger] c[j].id()) == j && well_formed(c[j]),
            decreases n - i,
        {
            let f = &self.files[i];
            proof {
                assert(decreases_to!(self.files => self.files[i as int]));
                lemma_find_last_bounds(c, c[i as int].id());
                assert(self@.children() == c);
            }
            let id = f.id();
            let last = match map.get(&id) {
                Some(k) => *k == i,
                None => false,
            };
            if !last {
                return false;
            }
            if !f.is_well_formed() {
                assert(!well_formed(self@.children()[i as int]));
                return false;
            }
            assert(find_last(c, c[i as int].id()) == i);
            assert(well_formed(c[i as int]));
            i = i + 1;
        }
        proof {
            let d = self@;
            assert(d.children() == c);
            assert forall|i: int| 0 <= i < d.children().len() implies well_formed(
                #[trigger] d.children()[i],
            ) by {
                assert(find_last(c, c[i].id()) == i);
            }
        }
        true
    }

    /// Whether, wherever `self` and `old` hold nodes under the same identifier path, both are
    /// directories or both are regular files.
    pub fn kinds_agree_with(&self, old: &Directory) -> (r: bool)
        ensures
            r == kinds_agree(self@, old@),
        decreases self,
    {
        let map = old.id_to_file_map();
        let ghost nc = view_files(self.files@);
        let ghost oc = view_files(old.files@);
        proof {
            lemma_view_files(self.files@);
            lemma_view_files(old.files@);
        }
        let n = self.files.len();
        let mut ok = true;
        for i in 0..n
            invariant
                n == self.files.len(),
                nc == view_files(self.files@),
                oc == view_files(old.files@),
                nc.len() == n,
                oc.len() == old.files@.len(),
                forall|j: int| 0 <= j < n ==> #[trigger] nc[j] == self.files@[j]@,
                forall|j: int| 0 <= j < old.files@.len() ==> #[trigger] oc[j] == old.files@[j]@,
                forall|id: Id| #[trigger] map@.contains_key(id) == (find_last(oc, id) >= 0),
                forall|id: Id| map@.contains_key(id) ==> #[trigger] map@[id] as int == find_last(oc, id),
                ok == forall|j: int|
                    0 <= j < i && find_last(oc, #[trigger] nc[j].id()) >= 0 ==> kinds_agree(
                        nc[j],
                        oc[find_last(oc, nc[j].id())],
                    ),
        {
            let f = &self.files[i];
            proof {
                assert(decreases_to!(self.files => self.files[i as int]));
                lemma_find_last_bounds(oc, nc[i as int].id());
            }
            let id = f.id();
            let good = match map.get(&id) {
                Some(k) => f.kinds_agree_with(&old.files[*k]),
                None => true,
            };
            ok = ok && good;
        }
        proof {
            assert(self@ matches Node::Dir(_, x) && x == nc);
            assert(old@ matches Node::Dir(_, x) && x == oc);
        }
        ok
    }
}

} // verus!
