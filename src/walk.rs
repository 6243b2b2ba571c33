use vstd::prelude::*;
use crate::profiles::{names_view, Listed};
use crate::swap::Tree;

verus! {

/// A path below the root of a walk, as its components.
pub open spec fn path_view(p: Seq<String>) -> Seq<Seq<char>> {
    names_view(p)
}

/// One file-system operation of a tree walk, on a path below the walk's root.
#[derive(Debug, Clone, PartialEq, Eq)]
pub enum TreeOp {
    /// Create this directory at the destination.
    MakeDir(Vec<String>),
    /// Copy this file from the source to the destination.
    CopyFile(Vec<String>),
    /// Delete this file.
    RemoveFile(Vec<String>),
}

/// The meaning of a [`TreeOp`].
pub enum TreeOpV {
    MakeDir(Seq<Seq<char>>),
    CopyFile(Seq<Seq<char>>),
    RemoveFile(Seq<Seq<char>>),
}

impl View for TreeOp {
    type V = TreeOpV;

    open spec fn view(&self) -> TreeOpV {
        match self {
            TreeOp::MakeDir(p) => TreeOpV::MakeDir(path_view(p@)),
            TreeOp::CopyFile(p) => TreeOpV::CopyFile(path_view(p@)),
            TreeOp::RemoveFile(p) => TreeOpV::RemoveFile(path_view(p@)),
        }
    }
}

/// The operations, as their meanings.
pub open spec fn ops_view(v: Seq<TreeOp>) -> Seq<TreeOpV> {
    v.map_values(|o: TreeOp| o@)
}

/// Copying the entries of `dir`: a directory is made for each subdirectory,
/// and each file is copied, in listing order.
pub open spec fn copy_ops(dir: Seq<Seq<char>>, entries: Seq<Listed>) -> Seq<TreeOpV>
    decreases entries.len(),
{
    if entries.len() == 0 {
        Seq::empty()
    } else {
        let prev = copy_ops(dir, entries.drop_last());
        let path = dir.push(entries.last().name@);
        if entries.last().is_dir {
            prev.push(TreeOpV::MakeDir(path))
        } else {
            prev.push(TreeOpV::CopyFile(path))
        }
    }
}

/// The files of `dir` to delete, in listing order.
pub open spec fn remove_ops(dir: Seq<Seq<char>>, entries: Seq<Listed>) -> Seq<TreeOpV>
    decreases entries.len(),
{
    if entries.len() == 0 {
        Seq::empty()
    } else {
        let prev = remove_ops(dir, entries.drop_last());
        if entries.last().is_dir {
            prev
        } else {
            prev.push(TreeOpV::RemoveFile(dir.push(entries.last().name@)))
        }
    }
}

/// The subdirectories of `dir`, in listing order.
pub open spec fn subdirs(dir: Seq<Seq<char>>, entries: Seq<Listed>) -> Seq<Seq<Seq<char>>>
    decreases entries.len(),
{
    if entries.len() == 0 {
        Seq::empty()
    } else {
        let prev = subdirs(dir, entries.drop_last());
        if entries.last().is_dir {
            prev.push(dir.push(entries.last().name@))
        } else {
            prev
        }
    }
}

/// `dir` extended by one component.
pub fn child_path(dir: &Vec<String>, name: &String) -> (r: Vec<String>)
    ensures
        path_view(r@) == path_view(dir@).push(name@),
{
    let mut r: Vec<String> = Vec::new();
    let mut i: usize = 0;
    while i < dir.len()
        invariant
            i <= dir@.len(),
            path_view(r@) == path_view(dir@.subrange(0, i as int)),
        decreases dir@.len() - i,
    {
        let ghost before = r@;
        r.push(dir[i].clone());
        assert(dir@.subrange(0, i + 1) =~= dir@.subrange(0, i as int).push(dir@[i as int]));
        assert(path_view(r@) =~= path_view(before).push(dir@[i as int]@));
        assert(path_view(dir@.subrange(0, i + 1)) =~= path_view(dir@.subrange(0, i as int)).push(
            dir@[i as int]@,
        ));
        i = i + 1;
    }
    assert(dir@.subrange(0, dir@.len() as int) =~= dir@);
    let ghost before = r@;
    r.push(name.clone());
    assert(path_view(r@) =~= path_view(before).push(name@));
    r
}

/// Copying a tree into an existing, empty directory, one directory at a time:
/// the caller lists each directory the walk hands out and performs the
/// operations it gets back, which name further directories to visit.
pub struct CopyWalk {
    pending: Vec<Vec<String>>,
}

impl CopyWalk {
    /// The directories still to be listed, the last one first.
    pub closed spec fn pending(&self) -> Seq<Seq<Seq<char>>> {
        self.pending@.map_values(|p: Vec<String>| path_view(p@))
    }

    /// A walk that starts at the root.
    pub fn new() -> (r: CopyWalk)
        ensures
            r.pending() == seq![Seq::<Seq<char>>::empty()],
    {
        let mut pending: Vec<Vec<String>> = Vec::new();
        let root: Vec<String> = Vec::new();
        assert(path_view(root@) =~= Seq::<Seq<char>>::empty());
        pending.push(root);
        let r = CopyWalk { pending };
        assert(r.pending() =~= seq![Seq::<Seq<char>>::empty()]);
        r
    }

    /// The next directory to list, or `None` when the copy is complete.
    pub fn next_dir(&mut self) -> (r: Option<Vec<String>>)
        ensures
            old(self).pending().len() == 0 ==> r is None && final(self).pending() == old(
                self,
            ).pending(),
            old(self).pending().len() > 0 ==> r is Some && path_view(r->0@) == old(
                self,
            ).pending().last() && final(self).pending() == old(self).pending().drop_last(),
    {
        let r = self.pending.pop();
        proof {
            if old(self).pending@.len() > 0 {
                assert(self.pending() =~= old(self).pending().drop_last());
            }
        }
        r
    }

    /// Takes the listing of `dir` and says what to do with it: the operations
    /// of [`copy_ops`]; its subdirectories are then due to be listed.
    pub fn visit(&mut self, dir: &Vec<String>, listing: &Vec<Listed>) -> (r: Vec<TreeOp>)
        ensures
            ops_view(r@) == copy_ops(path_view(dir@), listing@),
            final(self).pending() == old(self).pending() + subdirs(path_view(dir@), listing@),
    {
        let ghost d = path_view(dir@);
        let mut r: Vec<TreeOp> = Vec::new();
        let mut i: usize = 0;
        assert(listing@.subrange(0, 0) =~= Seq::<Listed>::empty());
        assert(ops_view(r@) =~= Seq::<TreeOpV>::empty());
        assert(self.pending() =~= old(self).pending() + Seq::<Seq<Seq<char>>>::empty());
        while i < listing.len()
            invariant
                i <= listing@.len(),
                d == path_view(dir@),
                ops_view(r@) == copy_ops(d, listing@.subrange(0, i as int)),
                self.pending() == old(self).pending() + subdirs(d, listing@.subrange(0, i as int)),
            decreases listing@.len() - i,
        {
            let ghost ops_before = r@;
            let ghost pend_before = self.pending@;
            let ghost prefix = listing@.subrange(0, i as int);
            assert(listing@.subrange(0, i + 1).drop_last() =~= prefix);
            let path = child_path(dir, &listing[i].name);
            if listing[i].is_dir {
                r.push(TreeOp::MakeDir(path.clone()));
                let ghost pv = self.pending();
                self.pending.push(path);
                assert(self.pending() =~= pv.push(d.push(listing@[i as int].name@)));
                assert(self.pending() =~= old(self).pending() + subdirs(d, prefix).push(
                    d.push(listing@[i as int].name@),
                ));
            } else {
                r.push(TreeOp::CopyFile(path));
                assert(self.pending@ == pend_before);
            }
            assert(ops_view(r@) =~= ops_view(ops_before).push(r@.last()@));
            i = i + 1;
        }
        assert(listing@.subrange(0, listing@.len() as int) =~= listing@);
        r
    }
}

/// A step of a bottom-up removal: list a directory, or delete it once emptied.
#[derive(Debug, Clone, PartialEq, Eq)]
pub enum Visit {
    Enter(Vec<String>),
    Leave(Vec<String>),
}

/// The meaning of a [`Visit`].
pub enum VisitV {
    Enter(Seq<Seq<char>>),
    Leave(Seq<Seq<char>>),
}

impl View for Visit {
    type V = VisitV;

    open spec fn view(&self) -> VisitV {
        match self {
            Visit::Enter(p) => VisitV::Enter(path_view(p@)),
            Visit::Leave(p) => VisitV::Leave(path_view(p@)),
        }
    }
}

/// The visits that follow entering `dir`: for each subdirectory, in listing
/// order, its deletion is queued below its own listing, so that the latter
/// comes first and the directory is deleted only after its content.
pub open spec fn nested_visits(dir: Seq<Seq<char>>, entries: Seq<Listed>) -> Seq<VisitV>
    decreases entries.len(),
{
    if entries.len() == 0 {
        Seq::empty()
    } else {
        let prev = nested_visits(dir, entries.drop_last());
        let path = dir.push(entries.last().name@);
        if entries.last().is_dir {
            prev.push(VisitV::Leave(path)).push(VisitV::Enter(path))
        } else {
            prev
        }
    }
}

/// Emptying a directory tree bottom-up, one directory at a time: the caller
/// lists each directory entered, deletes the files it is told to, and deletes
/// each directory when the walk leaves it.
pub struct RemoveWalk {
    pending: Vec<Visit>,
}

impl RemoveWalk {
    /// The visits still to come, the last one first.
    pub closed spec fn pending(&self) -> Seq<VisitV> {
        self.pending@.map_values(|v: Visit| v@)
    }

    /// A walk that empties the root but keeps the root itself.
    pub fn new() -> (r: RemoveWalk)
        ensures
            r.pending() == seq![VisitV::Enter(Seq::<Seq<char>>::empty())],
    {
        let mut pending: Vec<Visit> = Vec::new();
        let root: Vec<String> = Vec::new();
        assert(path_view(root@) =~= Seq::<Seq<char>>::empty());
        pending.push(Visit::Enter(root));
        let r = RemoveWalk { pending };
        assert(r.pending() =~= seq![VisitV::Enter(Seq::<Seq<char>>::empty())]);
        r
    }

    /// The next visit, or `None` when the tree is empty.
    pub fn next_visit(&mut self) -> (r: Option<Visit>)
        ensures
            old(self).pending().len() == 0 ==> r is None && final(self).pending() == old(
                self,
            ).pending(),
            old(self).pending().len() > 0 ==> r is Some && r->0@ == old(self).pending().last()
                && final(self).pending() == old(self).pending().drop_last(),
    {
        let r = self.pending.pop();
        proof {
            if old(self).pending@.len() > 0 {
                assert(self.pending() =~= old(self).pending().drop_last());
            }
        }
        r
    }

    /// Takes the listing of a directory entered: its files are to be deleted
    /// now, and each subdirectory is queued to be emptied and then deleted.
    pub fn enter(&mut self, dir: &Vec<String>, listing: &Vec<Listed>) -> (r: Vec<TreeOp>)
        ensures
            ops_view(r@) == remove_ops(path_view(dir@), listing@),
            final(self).pending() == old(self).pending() + nested_visits(path_view(dir@), listing@),
    {
        let ghost d = path_view(dir@);
        let mut r: Vec<TreeOp> = Vec::new();
        let mut i: usize = 0;
        assert(listing@.subrange(0, 0) =~= Seq::<Listed>::empty());
        assert(ops_view(r@) =~= Seq::<TreeOpV>::empty());
        assert(self.pending() =~= old(self).pending() + Seq::<VisitV>::empty());
        while i < listing.len()
            invariant
                i <= listing@.len(),
                d == path_view(dir@),
                ops_view(r@) == remove_ops(d, listing@.subrange(0, i as int)),
                self.pending() == old(self).pending() + nested_visits(
                    d,
                    listing@.subrange(0, i as int),
                ),
            decreases listing@.len() - i,
        {
            let ghost ops_before = r@;
            let ghost pend_before = self.pending@;
            let ghost prefix = listing@.subrange(0, i as int);
            assert(listing@.subrange(0, i + 1).drop_last() =~= prefix);
            let path = child_path(dir, &listing[i].name);
            if listing[i].is_dir {
                let ghost pv = self.pending();
                let ghost p = d.push(listing@[i as int].name@);
                self.pending.push(Visit::Leave(path.clone()));
                self.pending.push(Visit::Enter(path));
                assert(self.pending() =~= pv.push(VisitV::Leave(p)).push(VisitV::Enter(p)));
                assert(self.pending() =~= old(self).pending() + nested_visits(d, prefix).push(
                    VisitV::Leave(p),
                ).push(VisitV::Enter(p)));
                assert(r@ == ops_before);
            } else {
                r.push(TreeOp::RemoveFile(path));
                assert(ops_view(r@) =~= ops_view(ops_before).push(r@.last()@));
                assert(self.pending@ == pend_before);
            }
            i = i + 1;
        }
        assert(listing@.subrange(0, listing@.len() as int) =~= listing@);
        r
    }
}

/// A well-formed tree: the root is not an entry, and every entry lies in a
/// directory of the tree (or directly in the root).
pub open spec fn tree_ok(t: Tree) -> bool {
    &&& !t.contains_key(Seq::empty())
    &&& forall|k: Seq<Seq<char>>, i: int|
        #![trigger t.contains_key(k), k.subrange(0, i)]
        t.contains_key(k) && 0 < i < k.len() ==> t.contains_key(k.subrange(0, i)) && t[k.subrange(
            0,
            i,
        )] is None
}

/// `k` lies strictly below the directory `p`.
pub open spec fn below(p: Seq<Seq<char>>, k: Seq<Seq<char>>) -> bool {
    p.len() < k.len() && k.subrange(0, p.len() as int) == p
}

/// `entries` is a true listing of the directory `p` of `src`: each entry is a
/// child of `p` with its kind, and each child of `p` is listed.
pub open spec fn lists_children(src: Tree, p: Seq<Seq<char>>, entries: Seq<Listed>) -> bool {
    &&& forall|j: int|
        0 <= j < entries.len() ==> src.contains_key(#[trigger] p.push(entries[j].name@)) && (
        entries[j].is_dir <==> src[p.push(entries[j].name@)] is None)
    &&& forall|k: Seq<Seq<char>>|
        #![trigger src.contains_key(k)]
        src.contains_key(k) && k.len() == p.len() + 1 && k.subrange(0, p.len() as int) == p
            ==> exists|j: int| 0 <= j < entries.len() && #[trigger] entries[j].name@ == k.last()
}

/// A tree after carrying out operations on it; what is copied comes from `src`.
pub open spec fn ops_result(src: Tree, dest: Tree, ops: Seq<TreeOpV>) -> Tree
    decreases ops.len(),
{
    if ops.len() == 0 {
        dest
    } else {
        let prev = ops_result(src, dest, ops.drop_last());
        match ops.last() {
            TreeOpV::MakeDir(q) => prev.insert(q, None),
            TreeOpV::CopyFile(q) => prev.insert(q, src[q]),
            TreeOpV::RemoveFile(q) => prev.remove(q),
        }
    }
}

/// What holds between the directories still pending and the copy so far: all
/// that was copied matches the source, and every entry of the source is
/// either copied or lies below a pending directory.
pub open spec fn copy_progress(src: Tree, dest: Tree, pending: Seq<Seq<Seq<char>>>) -> bool {
    &&& forall|k: Seq<Seq<char>>|
        #[trigger] dest.contains_key(k) ==> src.contains_key(k) && dest[k] == src[k]
    &&& forall|k: Seq<Seq<char>>|
        #[trigger] src.contains_key(k) ==> dest.contains_key(k) || exists|i: int|
            0 <= i < pending.len() && below(#[trigger] pending[i], k)
}

/// The visit that `k` waits for: the listing of a directory it lies below, or
/// its own deletion.
pub open spec fn covers(v: VisitV, k: Seq<Seq<char>>) -> bool {
    match v {
        VisitV::Enter(q) => below(q, k),
        VisitV::Leave(q) => k == q,
    }
}

/// What holds between the visits pending and the tree being emptied: every
/// entry waits for some visit, and whatever lies below a directory waiting to
/// be deleted waits for a visit that comes before that deletion.
pub open spec fn removal_progress(t: Tree, pending: Seq<VisitV>) -> bool {
    &&& tree_ok(t)
    &&& forall|k: Seq<Seq<char>>|
        #[trigger] t.contains_key(k) ==> exists|i: int|
            0 <= i < pending.len() && covers(#[trigger] pending[i], k)
    &&& forall|k: Seq<Seq<char>>, i: int|
        #![trigger t.contains_key(k), pending[i]]
        t.contains_key(k) && 0 <= i < pending.len() && pending[i] is Leave && below(
            pending[i]->Leave_0,
            k,
        ) ==> exists|i2: int| i < i2 < pending.len() && covers(#[trigger] pending[i2], k)
}

/// How a copy walk keeps from doing work twice: nothing below a pending
/// directory is copied yet, and no pending directory is another or lies below
/// another.
pub open spec fn copy_order(dest: Tree, pending: Seq<Seq<Seq<char>>>) -> bool {
    &&& forall|k: Seq<Seq<char>>, i: int|
        #![trigger dest.contains_key(k), pending[i]]
        dest.contains_key(k) && 0 <= i < pending.len() ==> !below(pending[i], k)
    &&& forall|i: int, j: int|
        #![trigger pending[i], pending[j]]
        0 <= i < pending.len() && 0 <= j < pending.len() && i != j ==> pending[i] != pending[j]
            && !below(pending[i], pending[j])
}

/// No two entries of a listing share a name.
pub open spec fn distinct_names(entries: Seq<Listed>) -> bool {
    forall|i: int, j: int|
        0 <= i < entries.len() && 0 <= j < entries.len() && i != j ==> #[trigger] entries[i].name@
            != #[trigger] entries[j].name@
}

/// What is left of a copy walk: the entries of the source not yet copied,
/// and the directories pending.
pub open spec fn copy_measure(src: Tree, dest: Tree, pending: Seq<Seq<Seq<char>>>) -> nat {
    src.dom().difference(dest.dom()).len() + pending.len()
}

} // verus!
