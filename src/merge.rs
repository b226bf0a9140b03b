//! Folding a change set back into the stored snapshot.
use vstd::prelude::*;

use crate::diff::{
    diff_children, diff_node, diff_source, find_last, is_changed, kinds_agree,
    lemma_diff_children_complete, lemma_diff_children_source, lemma_diff_children_unique,
    lemma_diff_keeps_base, lemma_find_last_bounds, lemma_find_last_unique, unique_ids, well_formed,
};
use crate::tree::{
    lemma_view_files, lemma_view_files_push, view_files, BaseView, Directory, File, FileTree, Id,
    Node, RegularFile,
};

verus! {

broadcast use {vstd::std_specs::hash::group_hash_axioms, vstd::std_specs::vec::group_vec_axioms};

/// `old` with the change set `d` folded in. A directory takes the times of `d` and the merged
/// children; a regular file takes the times and size of `d`. Identity and name stay.
pub open spec fn merge_node(old: Node, d: Node) -> Node
    decreases d,
{
    match d {
        Node::Dir(db, dc) => match old {
            Node::Dir(ob, oc) => Node::Dir(
                BaseView { time: db.time, ..ob },
                merged_list(oc, dc) + untouched(oc, dc),
            ),
            Node::Reg(_) => old,
        },
        Node::Reg(db) => match old {
            Node::Reg(ob) => Node::Reg(BaseView { time: db.time, size: db.size, ..ob }),
            Node::Dir(_, _) => old,
        },
    }
}

/// The children of a change set, in order, each merged into its counterpart among `oc`
/// where it has one.
pub open spec fn merged_list(oc: Seq<Node>, dc: Seq<Node>) -> Seq<Node>
    decreases dc,
{
    if dc.len() == 0 {
        Seq::empty()
    } else {
        let c = dc.last();
        let k = find_last(oc, c.id());
        merged_list(oc, dc.drop_last()).push(
            if k < 0 {
                c
            } else {
                merge_node(oc[k], c)
            },
        )
    }
}

/// The old children that the change set does not mention, in their order.
pub open spec fn untouched(oc: Seq<Node>, dc: Seq<Node>) -> Seq<Node>
    decreases oc.len(),
{
    if oc.len() == 0 {
        Seq::empty()
    } else {
        let rest = untouched(oc.drop_last(), dc);
        if find_last(dc, oc.last().id()) < 0 {
            rest.push(oc.last())
        } else {
            rest
        }
    }
}

impl File {
    /// Folds the change set `diff`, computed against `self`, into `self`.
    pub fn merge(&mut self, diff: File)
        requires
            kinds_agree(diff@, old(self)@),
            well_formed(old(self)@),
            well_formed(diff@),
        ensures
            final(self)@ == merge_node(old(self)@, diff@),
        decreases diff,
    {
        match diff {
            File::Directory(new) => match self {
                File::Directory(old) => old.merge(new),
                File::RegularFile(_) => {},
            },
            File::RegularFile(new) => match self {
                File::RegularFile(old) => old.merge(new),
                File::Directory(_) => {},
            },
        }
    }
}

impl RegularFile {
    /// Takes the times and size of `diff`.
    pub fn merge(&mut self, diff: RegularFile)
        ensures
            final(self)@ == merge_node(old(self)@, diff@),
    {
        self.base.time = diff.base.time;
        self.base.size = diff.base.size;
    }
}

impl Directory {
    /// Folds the change set `diff`, computed against `self`, into `self`: the children of
    /// `diff` come first, in order, merged into their counterparts; the old children that
    /// `diff` does not mention follow, unchanged.
    pub fn merge(&mut self, diff: Directory)
        requires
            kinds_agree(diff@, old(self)@),
            well_formed(old(self)@),
            well_formed(diff@),
        ensures
            final(self)@ == merge_node(old(self)@, diff@),
        decreases diff,
    {
        let ghost s0 = *self;
        let ghost d0 = diff;
        let ghost oc = view_files(s0.files@);
        let ghost dc = view_files(d0.files@);
        proof {
            lemma_view_files(s0.files@);
            lemma_view_files(d0.files@);
            assert(s0@ matches Node::Dir(_, c) && c == oc);
            assert(d0@ matches Node::Dir(_, c) && c == dc);
        }
        let map = self.id_to_file_map();
        self.base.time = diff.base.time;
        let mut old_files: Vec<File> = Vec::new();
        std::mem::swap(&mut old_files, &mut self.files);
        let mut slots: Vec<Option<File>> = Vec::new();
        for f in it: old_files
            invariant
                it.seq() == s0.files@,
                slots.len() == it.index(),
                forall|k: int| 0 <= k < slots.len() ==> #[trigger] slots@[k] == Some(s0.files@[k]),
        {
            slots.push(Some(f));
        }
        let Directory { base: _, files: new_files } = diff;
        let mut out: Vec<File> = Vec::new();
        for c in it: new_files
            invariant
                d0 == diff,
                it.seq() == d0.files@,
                oc == view_files(s0.files@),
                dc == view_files(d0.files@),
                oc.len() == s0.files@.len(),
                dc.len() == d0.files@.len(),
                forall|j: int| 0 <= j < s0.files@.len() ==> #[trigger] oc[j] == s0.files@[j]@,
                forall|j: int| 0 <= j < d0.files@.len() ==> #[trigger] dc[j] == d0.files@[j]@,
                kinds_agree(d0@, s0@),
                well_formed(s0@),
                well_formed(d0@),
                unique_ids(oc),
                unique_ids(dc),
                forall|id| #[trigger] map@.contains_key(id) == (find_last(oc, id) >= 0),
                forall|id| map@.contains_key(id) ==> #[trigger] map@[id] as int == find_last(oc, id),
                slots.len() == oc.len(),
                forall|k: int|
                    0 <= k < slots.len() ==> (#[trigger] slots@[k] is Some) == (find_last(
                        dc.take(it.index() as int),
                        oc[k].id(),
                    ) < 0),
                forall|k: int|
                    0 <= k < slots.len() && #[trigger] slots@[k] is Some ==> slots@[k]->0
                        == s0.files@[k],
                view_files(out@) == merged_list(oc, dc.take(it.index() as int)),
        {
            let ghost i = it.index() as int;
            let ghost out0 = out@;
            let ghost slots0 = slots@;
            proof {
                assert(dc.take(i + 1).drop_last() =~= dc.take(i));
                assert(dc.take(i + 1).last() == dc[i]);
                assert(c == d0.files@[i]);
                assert(decreases_to!(d0 => d0.files));
                assert(decreases_to!(d0.files => d0.files[i]));
                assert(decreases_to!(d0 => c));
                lemma_find_last_bounds(oc, dc[i].id());
                assert forall|k: int| 0 <= k < oc.len() implies find_last(dc.take(i + 1), oc[k].id())
                    == if dc[i].id() == oc[k].id() {
                    i
                } else {
                    find_last(dc.take(i), oc[k].id())
                } by {
                    assert(dc.take(i + 1).drop_last() =~= dc.take(i));
                }
            }
            let id = c.id();
            match map.get(&id) {
                None => {
                    out.push(c);
                    proof {
                        lemma_view_files_push(out0, c);
                    }
                },
                Some(k) => {
                    let k = *k;
                    let mut slot: Option<File> = None;
                    slots.set_and_swap(k, &mut slot);
                    proof {
                        lemma_find_last_unique(oc, k as int);
                        lemma_find_last_bounds(dc.take(i), oc[k as int].id());
                        assert(slots0[k as int] is Some) by {
                            if find_last(dc.take(i), oc[k as int].id()) >= 0 {
                                let j = find_last(dc.take(i), oc[k as int].id());
                                assert(dc.take(i)[j] == dc[j]);
                            }
                        }
                        assert(d0@ matches Node::Dir(_, x) && x == dc);
                        assert(s0@ matches Node::Dir(_, x) && x == oc);
                        assert(kinds_agree(dc[i], oc[find_last(oc, dc[i].id())]));
                        assert(well_formed(d0@.children()[i]));
                        assert(well_formed(s0@.children()[k as int]));
                    }
                    match slot {
                        Some(mut o) => {
                            o.merge(c);
                            out.push(o);
                            proof {
                                lemma_view_files_push(out0, o);
                            }
                        },
                        None => {
                            proof {
                                assert(false);
                            }
                            out.push(c);
                        },
                    }
                },
            }
            proof {
                assert forall|k: int| 0 <= k < slots.len() implies (#[trigger] slots@[k] is Some) == (
                find_last(dc.take(i + 1), oc[k].id()) < 0) by {
                    lemma_find_last_bounds(dc.take(i), oc[k].id());
                    if dc[i].id() == oc[k].id() {
                        lemma_find_last_unique(oc, k);
                    }
                }
            }
        }
        let ghost dn = dc.len() as int;
        proof {
            assert(dc.take(dn) =~= dc);
        }
        let n = slots.len();
        for k in 0..n
            invariant
                n == slots.len(),
                oc.len() == n,
                s0.files@.len() == n,
                forall|j: int| 0 <= j < s0.files@.len() ==> #[trigger] oc[j] == s0.files@[j]@,
                forall|j: int|
                    k <= j < n ==> (#[trigger] slots@[j] is Some) == (find_last(dc, oc[j].id())
                        < 0),
                forall|j: int| k <= j < n && #[trigger] slots@[j] is Some ==> slots@[j]->0 == s0.files@[j],
                view_files(out@) == merged_list(oc, dc) + untouched(oc.take(k as int), dc),
        {
            let ghost out0 = out@;
            let ghost slots0 = slots@;
            let mut slot: Option<File> = None;
            slots.set_and_swap(k, &mut slot);
            proof {
                assert(oc.take(k + 1).drop_last() =~= oc.take(k as int));
                assert(oc.take(k + 1).last() == oc[k as int]);
                assert(slot == slots0[k as int]);
                assert((slots0[k as int] is Some) == (find_last(dc, oc[k as int].id()) < 0));
            }
            match slot {
                Some(o) => {
                    out.push(o);
                    proof {
                        lemma_view_files_push(out0, o);
                        assert(slots0[k as int]->0 == s0.files@[k as int]);
                        assert(oc[k as int] == s0.files@[k as int]@);
                        assert(o@ == oc[k as int]);
                        assert(untouched(oc.take(k + 1), dc) == untouched(oc.take(k as int), dc).push(
                            oc[k as int],
                        ));
                        assert(merged_list(oc, dc) + untouched(oc.take(k + 1), dc) =~= (merged_list(
                            oc,
                            dc,
                        ) + untouched(oc.take(k as int), dc)).push(o@));
                    }
                },
                None => {},
            }
        }
        proof {
            assert(oc.take(n as int) =~= oc);
        }
        self.files = out;
    }
}

impl FileTree {
    /// Folds the change set `diff`, computed against `self`, into the root of `self`.
    pub fn merge(&mut self, diff: FileTree)
        requires
            kinds_agree(diff.root@, old(self).root@),
            well_formed(old(self).root@),
            well_formed(diff.root@),
        ensures
            final(self).root@ == merge_node(old(self).root@, diff.root@),
            final(self).api == old(self).api,
    {
        self.root.merge(diff.root);
    }
}

/// The child `nc`'s identifier `id` belongs to a child of `nc` that changed against `oc`.
pub open spec fn touched(id: Id, nc: Seq<Node>, oc: Seq<Node>) -> bool {
    find_last(nc, id) >= 0 && is_changed(nc[find_last(nc, id)], oc)
}

/// `m` is `new` restricted to what changed against `old`, laid over `old`. It keeps the
/// identity and name of `old` and takes the times of `new` (and a regular file its size).
/// Among its children, whose identifiers are unique: each child of `new` that changed is
/// there, as it is where it is new, else recursively so; each child of `old` that no change
/// touched is there as it was; and there is nothing else.
pub open spec fn overlays(m: Node, new: Node, old: Node) -> bool
    decreases new,
{
    &&& m.id() == old.id()
    &&& m.base().name == old.base().name
    &&& m.base().time == new.base().time
    &&& (m is Dir) == (new is Dir)
    &&& (m is Reg ==> m.base().size == new.base().size)
    &&& match new {
        Node::Dir(_, nc) => {
            let mc = m.children();
            let oc = old.children();
            &&& unique_ids(mc)
            &&& forall|j: int|
                0 <= j < nc.len() && #[trigger] is_changed(nc[j], oc) ==> {
                    let i = find_last(mc, nc[j].id());
                    let k = find_last(oc, nc[j].id());
                    &&& i >= 0
                    &&& k < 0 ==> mc[i] == nc[j]
                    &&& k >= 0 ==> overlays(mc[i], nc[j], oc[k])
                }
            &&& forall|k: int|
                0 <= k < oc.len() && !touched(#[trigger] oc[k].id(), nc, oc) ==> {
                    let i = find_last(mc, oc[k].id());
                    i >= 0 && mc[i] == oc[k]
                }
            &&& forall|i: int|
                0 <= i < mc.len() ==> touched(#[trigger] mc[i].id(), nc, oc) || find_last(
                    oc,
                    mc[i].id(),
                ) >= 0
        },
        Node::Reg(_) => true,
    }
}

pub open spec fn merged_one(oc: Seq<Node>, c: Node) -> Node {
    let k = find_last(oc, c.id());
    if k < 0 {
        c
    } else {
        merge_node(oc[k], c)
    }
}

proof fn lemma_merged_list(oc: Seq<Node>, dc: Seq<Node>)
    ensures
        merged_list(oc, dc).len() == dc.len(),
        forall|x: int|
            0 <= x < dc.len() ==> #[trigger] merged_list(oc, dc)[x] == merged_one(oc, dc[x]),
        forall|x: int| 0 <= x < dc.len() ==> #[trigger] merged_list(oc, dc)[x].id() == dc[x].id(),
    decreases dc.len(),
{
    if dc.len() > 0 {
        lemma_merged_list(oc, dc.drop_last());
        assert forall|x: int| 0 <= x < dc.len() implies #[trigger] merged_list(oc, dc)[x]
            == merged_one(oc, dc[x]) && merged_list(oc, dc)[x].id() == dc[x].id() by {
            if x < dc.len() - 1 {
                assert(dc.drop_last()[x] == dc[x]);
            }
            lemma_find_last_bounds(oc, dc[x].id());
        }
    }
}

proof fn lemma_untouched(oc: Seq<Node>, dc: Seq<Node>)
    requires
        unique_ids(oc),
    ensures
        unique_ids(untouched(oc, dc)),
        forall|y: int|
            0 <= y < untouched(oc, dc).len() ==> exists|k: int|
                0 <= k < oc.len() && find_last(dc, oc[k].id()) < 0 && #[trigger] untouched(
                    oc,
                    dc,
                )[y] == oc[k],
        forall|k: int|
            0 <= k < oc.len() && find_last(dc, #[trigger] oc[k].id()) < 0 ==> exists|y: int|
                0 <= y < untouched(oc, dc).len() && untouched(oc, dc)[y] == oc[k],
    decreases oc.len(),
{
    if oc.len() > 0 {
        let init = oc.drop_last();
        assert(unique_ids(init)) by {
            assert forall|i: int, j: int|
                0 <= i < init.len() && 0 <= j < init.len() && i != j implies init[i].id()
                != init[j].id() by {
                assert(init[i] == oc[i] && init[j] == oc[j]);
            }
        }
        lemma_untouched(init, dc);
        let rest = untouched(init, dc);
        let u = untouched(oc, dc);
        let l = oc.last();
        assert(l == oc[oc.len() - 1]);
        assert forall|y: int| 0 <= y < rest.len() implies #[trigger] rest[y].id() != l.id() by {
            let k = choose|k: int|
                0 <= k < init.len() && find_last(dc, init[k].id()) < 0 && #[trigger] untouched(
                    init,
                    dc,
                )[y] == init[k];
            assert(init[k] == oc[k]);
        }
        assert forall|y: int| 0 <= y < u.len() implies exists|k: int|
            0 <= k < oc.len() && find_last(dc, oc[k].id()) < 0 && #[trigger] untouched(oc, dc)[y]
                == oc[k] by {
            if y < rest.len() {
                let k = choose|k: int|
                    0 <= k < init.len() && find_last(dc, init[k].id()) < 0 && #[trigger] untouched(
                        init,
                        dc,
                    )[y] == init[k];
                assert(init[k] == oc[k]);
                assert(u[y] == rest[y]);
            } else {
                assert(u[y] == oc[oc.len() - 1]);
            }
        }
        assert forall|k: int| 0 <= k < oc.len() && find_last(dc, #[trigger] oc[k].id()) < 0 implies exists|
            y: int,
        | 0 <= y < u.len() && u[y] == oc[k] by {
            if k < oc.len() - 1 {
                assert(init[k] == oc[k]);
                let y = choose|y: int|
                    0 <= y < rest.len() && untouched(init, dc)[y] == init[k];
                assert(u[y] == rest[y]);
            } else {
                assert(u[rest.len() as int] == oc[k]);
            }
        }
        assert forall|i: int, j: int| 0 <= i < u.len() && 0 <= j < u.len() && i != j implies u[i].id()
            != u[j].id() by {
            if i < rest.len() && j < rest.len() {
                assert(u[i] == rest[i] && u[j] == rest[j]);
            } else if i < rest.len() {
                assert(u[i] == rest[i]);
            } else if j < rest.len() {
                assert(u[j] == rest[j]);
            }
        }
    }
}

/// Folding into the old snapshot its change set against a new one yields the new snapshot
/// restricted to what changed, laid over the entries of the old one that nothing touched.
pub proof fn lemma_merge_of_diff(new: Node, old: Node)
    requires
        well_formed(new),
        well_formed(old),
        kinds_agree(new, old),
        diff_node(new, old) is Some,
    ensures
        overlays(merge_node(old, diff_node(new, old)->0), new, old),
    decreases new,
{
    let d = diff_node(new, old)->0;
    let m = merge_node(old, d);
    if let Node::Dir(nb, nc) = new {
        let oc = old.children();
        let dc = diff_children(nc, oc);
        assert(d == Node::Dir(nb, dc));
        let ml = merged_list(oc, dc);
        let un = untouched(oc, dc);
        let mc = ml + un;
        assert(m.children() == mc);
        lemma_diff_children_unique(nc, oc);
        lemma_merged_list(oc, dc);
        lemma_untouched(oc, dc);
        // every changed child of `new` has its change set among `dc`, and conversely
        assert forall|x: int| 0 <= x < dc.len() implies touched(#[trigger] dc[x].id(), nc, oc) by {
            lemma_diff_children_source(nc, oc, x);
            let j = choose|j: int| #[trigger] diff_source(nc, oc, j, dc[x]);
            lemma_find_last_unique(nc, j);
            let k = find_last(oc, nc[j].id());
            if k >= 0 {
                lemma_diff_keeps_base(nc[j], oc[k]);
            }
        }
        assert forall|i: int, j: int| 0 <= i < mc.len() && 0 <= j < mc.len() && i != j implies mc[i].id()
            != mc[j].id() by {
            if i < ml.len() && j < ml.len() {
                assert(mc[i] == ml[i] && mc[j] == ml[j]);
            } else if i >= ml.len() && j >= ml.len() {
                assert(mc[i] == un[i - ml.len()] && mc[j] == un[j - ml.len()]);
            } else {
                let (a, b) = if i < ml.len() {
                    (i, j)
                } else {
                    (j, i)
                };
                assert(mc[a] == ml[a] && mc[b] == un[b - ml.len()]);
                let k = choose|k: int|
                    0 <= k < oc.len() && find_last(dc, oc[k].id()) < 0 && #[trigger] untouched(
                        oc,
                        dc,
                    )[b - ml.len()] == oc[k];
                lemma_find_last_bounds(dc, oc[k].id());
            }
        }
        assert forall|j: int| 0 <= j < nc.len() && #[trigger] is_changed(nc[j], oc) implies {
            let i = find_last(mc, nc[j].id());
            let k = find_last(oc, nc[j].id());
            &&& i >= 0
            &&& k < 0 ==> mc[i] == nc[j]
            &&& k >= 0 ==> overlays(mc[i], nc[j], oc[k])
        } by {
            lemma_diff_children_complete(nc, oc, j);
            let x = choose|x: int| 0 <= x < dc.len() && #[trigger] diff_source(nc, oc, j, dc[x]);
            let k = find_last(oc, nc[j].id());
            if k >= 0 {
                lemma_diff_keeps_base(nc[j], oc[k]);
            }
            assert(dc[x].id() == nc[j].id());
            assert(mc[x] == ml[x]);
            lemma_find_last_unique(mc, x);
            lemma_find_last_bounds(oc, nc[j].id());
            if k >= 0 {
                assert(old matches Node::Dir(_, c) && c == oc);
                assert(kinds_agree(nc[j], oc[k]));
                assert(well_formed(new.children()[j]));
                assert(well_formed(old.children()[k]));
                lemma_merge_of_diff(nc[j], oc[k]);
            }
        }
        assert forall|k: int| 0 <= k < oc.len() && !touched(#[trigger] oc[k].id(), nc, oc) implies {
            let i = find_last(mc, oc[k].id());
            i >= 0 && mc[i] == oc[k]
        } by {
            if find_last(dc, oc[k].id()) >= 0 {
                let x = find_last(dc, oc[k].id());
                lemma_find_last_bounds(dc, oc[k].id());
                assert(touched(dc[x].id(), nc, oc));
            }
            let y = choose|y: int| 0 <= y < un.len() && un[y] == oc[k];
            assert(mc[ml.len() + y] == un[y]);
            lemma_find_last_unique(mc, ml.len() + y);
        }
        assert forall|i: int| 0 <= i < mc.len() implies touched(#[trigger] mc[i].id(), nc, oc)
            || find_last(oc, mc[i].id()) >= 0 by {
            if i < ml.len() {
                assert(mc[i] == ml[i]);
            } else {
                assert(mc[i] == un[i - ml.len()]);
                let k = choose|k: int|
                    0 <= k < oc.len() && find_last(dc, oc[k].id()) < 0 && #[trigger] untouched(
                        oc,
                        dc,
                    )[i - ml.len()] == oc[k];
                lemma_find_last_bounds(oc, oc[k].id());
                lemma_find_last_unique(oc, k);
            }
        }
    }
}

/// Once a change set is folded in, comparing the same new snapshot again finds nothing.
pub proof fn lemma_merge_then_diff_is_empty(new: Node, old: Node)
    requires
        diff_node(new, old) is Some,
    ensures
        diff_node(new, merge_node(old, diff_node(new, old)->0)) is None,
{
    lemma_diff_keeps_base(new, old);
}

} // verus!
