use vstd::prelude::*;
use crate::entry::{entry_valid, name_bytes, node_of_entry, FileInfo};
use crate::error::FsError;
use crate::node::{DirEntryInfo, Node};
use crate::path::segments;
use crate::tree::{Tree, ROOT_ID};

verus! {

/// What a listing request of a directory has to do next.
#[derive(Debug, Clone, PartialEq, Eq)]
pub enum ListStep {
    /// The children are in the tree: list them.
    Ready,
    /// Another request is fetching them: wait for it, then ask again.
    Wait,
    /// This request fetches them: list the backend folder named here, then
    /// commit the result or abandon the fetch.
    Fetch(String),
}

/// One mounted filesystem: the tree, the directories whose children have
/// been fetched, and those whose fetch is under way.
pub struct FsCache {
    tree: Tree,
    visited: Vec<u64>,
    in_flight: Vec<u64>,
}

/// The names of a list of children.
pub open spec fn child_names(cs: Seq<(Seq<u8>, u64)>) -> Seq<Seq<u8>> {
    cs.map_values(|c: (Seq<u8>, u64)| c.0)
}

/// The names of a listing.
pub open spec fn entry_names(es: Seq<FileInfo>) -> Seq<Seq<u8>> {
    Seq::new(es.len(), |i: int| name_bytes(es[i]))
}

/// `names` followed by each of `items` that is not already there, in order:
/// the first of equal names wins.
pub open spec fn merge_names(names: Seq<Seq<u8>>, items: Seq<Seq<u8>>) -> Seq<Seq<u8>>
    decreases items.len(),
{
    if items.len() == 0 {
        names
    } else {
        let m = merge_names(names, items.drop_last());
        if m.contains(items.last()) {
            m
        } else {
            m.push(items.last())
        }
    }
}

/// Entry `q` is the first of `es` named `name`.
pub open spec fn first_named(es: Seq<FileInfo>, name: Seq<u8>, q: int) -> bool {
    &&& 0 <= q < es.len()
    &&& name_bytes(es[q]) == name
    &&& forall|q2: int| 0 <= q2 < q ==> name_bytes(#[trigger] es[q2]) != name
}

/// Every child of `id` from position `from` on holds the node that the first
/// entry of `es` with its name describes.
pub open spec fn described_by(t: Tree, id: u64, from: int, es: Seq<FileInfo>) -> bool {
    forall|j: int|
        #![trigger t.children(id)[j]]
        from <= j < t.children(id).len() ==> exists|q: int|
            first_named(es, t.children(id)[j].0, q) && node_of_entry(
                #[trigger] es[q],
                t.node(t.children(id)[j].1),
            )
}

impl FsCache {
    pub closed spec fn tree_view(&self) -> Tree {
        self.tree
    }

    /// Directories whose children are in the tree.
    pub closed spec fn visited(&self) -> Set<u64> {
        Set::new(|x: u64| self.visited@.contains(x))
    }

    /// Directories whose children are being fetched.
    pub closed spec fn in_flight(&self) -> Set<u64> {
        Set::new(|x: u64| self.in_flight@.contains(x))
    }

    /// The tree is well formed; populated directories and those being
    /// fetched are directories of the tree, no directory is both, and a
    /// directory not yet populated has no children.
    pub open spec fn wf(&self) -> bool {
        let t = self.tree_view();
        &&& t.wf()
        &&& forall|x: u64| #[trigger] self.visited().contains(x) ==> t.is_dir(x)
        &&& forall|x: u64| #[trigger] self.in_flight().contains(x) ==> t.is_dir(x) && !self.visited().contains(x)
        &&& forall|x: u64| #[trigger] t.is_dir(x) && !self.visited().contains(x) ==> t.children(x).len() == 0
    }

    /// What `begin_populate` answers for directory `id`; a fetch names the
    /// directory's backend reference.
    pub open spec fn populate_outcome(&self, id: u64) -> Result<ListStep, FsError> {
        let t = self.tree_view();
        if !t.contains(id) {
            Err(FsError::NotFound)
        } else if !t.is_dir(id) {
            Err(FsError::Forbidden)
        } else if self.visited().contains(id) {
            Ok(ListStep::Ready)
        } else if self.in_flight().contains(id) {
            Ok(ListStep::Wait)
        } else {
            Ok(ListStep::Fetch(t.node(id)->Dir_0.backend_id))
        }
    }

    /// What `begin_list` answers for `path`.
    pub open spec fn list_outcome(&self, path: Seq<u8>) -> Result<(u64, ListStep), FsError> {
        match self.tree_view().resolve(segments(path)) {
            Err(e) => Err(e),
            Ok(id) => match self.populate_outcome(id) {
                Ok(step) => Ok((id, step)),
                Err(e) => Err(e),
            },
        }
    }

    /// What `commit` answers for a listing `es` of directory `id`: only a
    /// directory whose fetch is under way takes a listing.
    pub open spec fn commit_result(&self, id: u64, es: Seq<FileInfo>) -> Result<(), FsError> {
        let t = self.tree_view();
        if !t.contains(id) {
            Err(FsError::NotFound)
        } else if !t.is_dir(id) || !self.in_flight().contains(id) {
            Err(FsError::Forbidden)
        } else if exists|k: int| 0 <= k < es.len() && !entry_valid(#[trigger] es[k]) {
            Err(FsError::BackendFailure)
        } else if es.len() >= u64::MAX - t.next_id() {
            Err(FsError::NoSpace)
        } else {
            Ok(())
        }
    }

    /// A filesystem whose tree holds only the directory `root`, unpopulated.
    pub fn new(root: Node) -> (r: FsCache)
        requires
            root.spec_is_dir(),
        ensures
            r.wf(),
            r.tree_view().slots().dom() == set![ROOT_ID],
            r.tree_view().node(ROOT_ID) == root,
            r.visited() == Set::<u64>::empty(),
            r.in_flight() == Set::<u64>::empty(),
    {
        let r = FsCache { tree: Tree::new(root), visited: Vec::new(), in_flight: Vec::new() };
        assert(r.visited() =~= Set::<u64>::empty());
        assert(r.in_flight() =~= Set::<u64>::empty());
        r
    }

    /// The tree.
    pub fn tree(&self) -> (r: &Tree)
        ensures
            *r == self.tree_view(),
    {
        &self.tree
    }

    /// Decides what a listing request of directory `id` does: list it when
    /// populated, wait for a fetch under way, or fetch. A fetch is handed to
    /// one request only: the directory is marked as being fetched until
    /// `commit` or `abandon`.
    pub fn begin_populate(&mut self, id: u64) -> (r: Result<ListStep, FsError>)
        requires
            old(self).wf(),
        ensures
            final(self).wf(),
            final(self).tree_view() == old(self).tree_view(),
            final(self).visited() == old(self).visited(),
            match old(self).populate_outcome(id) {
                Ok(ListStep::Fetch(_)) => {
                    &&& r matches Ok(ListStep::Fetch(b)) && (old(self).tree_view().node(id) matches Node::Dir(d) && b@ == d.backend_id@)
                    &&& final(self).in_flight() == old(self).in_flight().insert(id)
                },
                outcome => r == outcome && final(self).in_flight() == old(self).in_flight(),
            },
    {
        let node = self.tree.get_node(id)?;
        let dir = node.as_dir()?;
        if contains_id(&self.visited, id) {
            return Ok(ListStep::Ready);
        }
        if contains_id(&self.in_flight, id) {
            return Ok(ListStep::Wait);
        }
        let backend = dir.backend_id.clone();
        let ghost before = self.in_flight@;
        self.in_flight.push(id);
        proof {
            lemma_push_contains(before, id);
        }
        assert(self.in_flight() =~= Set::new(|x: u64| before.contains(x)).insert(id));
        Ok(ListStep::Fetch(backend))
    }

    /// Decides what a listing request of the directory at `path` does, as
    /// `begin_populate` does for the node the path names.
    pub fn begin_list(&mut self, path: &[u8]) -> (r: Result<(u64, ListStep), FsError>)
        requires
            old(self).wf(),
        ensures
            final(self).wf(),
            final(self).tree_view() == old(self).tree_view(),
            final(self).visited() == old(self).visited(),
            match old(self).list_outcome(path@) {
                Ok((id, ListStep::Fetch(_))) => {
                    &&& r matches Ok((i, ListStep::Fetch(b))) && (i == id && (old(self).tree_view().node(id) matches Node::Dir(d) && b@ == d.backend_id@))
                    &&& final(self).in_flight() == old(self).in_flight().insert(id)
                },
                outcome => r == outcome && final(self).in_flight() == old(self).in_flight(),
            },
    {
        let id = self.tree.lookup(path)?;
        let step = self.begin_populate(id)?;
        Ok((id, step))
    }

    /// Gives up a fetch of `id` that failed: the directory stays
    /// unpopulated, and the next request fetches again.
    pub fn abandon(&mut self, id: u64)
        requires
            old(self).wf(),
        ensures
            final(self).wf(),
            final(self).tree_view() == old(self).tree_view(),
            final(self).visited() == old(self).visited(),
            final(self).in_flight() == old(self).in_flight().remove(id),
    {
        let ghost before = self.in_flight@;
        self.in_flight = without_id(&self.in_flight, id);
        assert(self.in_flight() =~= Set::new(|x: u64| before.contains(x)).remove(id));
        assert(self.visited() == old(self).visited());
        assert forall|x: u64| #[trigger] self.in_flight().contains(x) implies self.tree.is_dir(x)
            && !self.visited().contains(x) by {
            assert(old(self).in_flight().contains(x));
        }
        assert forall|x: u64| #[trigger] self.visited().contains(x) implies self.tree.is_dir(x) by {
            assert(old(self).visited().contains(x));
        }
        assert forall|x: u64| #[trigger] self.tree.is_dir(x) && !self.visited().contains(x)
            implies self.tree.children(x).len() == 0 by {
            assert(!old(self).visited().contains(x));
        }
    }

    /// Puts the fetched listing `entries` of directory `id` into the tree,
    /// all of it or none of it. A malformed entry fails the whole listing
    /// with `BackendFailure`, and too little identity space with `NoSpace`;
    /// either way the directory stays unpopulated and its fetch is released.
    /// Otherwise each entry whose name is new under `id` becomes a child, in
    /// listing order (the first of equal names wins), and the directory is
    /// marked populated.
    #[verifier::rlimit(60)]
    pub fn commit(&mut self, id: u64, entries: &Vec<FileInfo>) -> (r: Result<(), FsError>)
        requires
            old(self).wf(),
        ensures
            final(self).wf(),
            r == old(self).commit_result(id, entries@),
            r == Err::<(), FsError>(FsError::NotFound) || r == Err::<(), FsError>(FsError::Forbidden)
                ==> final(self).tree_view() == old(self).tree_view() && final(self).visited()
                == old(self).visited() && final(self).in_flight() == old(self).in_flight(),
            r == Err::<(), FsError>(FsError::BackendFailure) || r == Err::<(), FsError>(
                FsError::NoSpace,
            ) ==> final(self).tree_view() == old(self).tree_view() && final(self).visited()
                == old(self).visited() && final(self).in_flight() == old(self).in_flight().remove(
                id,
            ),
            r is Ok ==> {
                &&& old(self).tree_view().grows_to(&final(self).tree_view())
                &&& child_names(final(self).tree_view().children(id)) == merge_names(
                    child_names(old(self).tree_view().children(id)),
                    entry_names(entries@),
                )
                &&& described_by(
                    final(self).tree_view(),
                    id,
                    old(self).tree_view().children(id).len() as int,
                    entries@,
                )
                &&& forall|k: u64|
                    #[trigger] old(self).tree_view().contains(k) && k != id
                        ==> final(self).tree_view().children(k) == old(self).tree_view().children(k)
                &&& forall|k: u64|
                    #[trigger] final(self).tree_view().contains(k) && !old(self).tree_view().contains(k)
                        ==> final(self).tree_view().parent(k) == id
                &&& forall|j: int|
                    old(self).tree_view().children(id).len() <= j < final(self).tree_view().children(id).len()
                        ==> !old(self).tree_view().contains(#[trigger] final(self).tree_view().children(id)[j].1)
                &&& final(self).visited() == old(self).visited().insert(id)
                &&& final(self).in_flight() == old(self).in_flight().remove(id)
            },
    {
        let node = self.tree.get_node(id)?;
        if !node.is_dir() {
            return Err(FsError::Forbidden);
        }
        if !contains_id(&self.in_flight, id) {
            return Err(FsError::Forbidden);
        }
        assert(self.in_flight().contains(id));
        let ghost es = entries@;
        let mut k: usize = 0;
        while k < entries.len()
            invariant
                k <= es.len(),
                es == entries@,
                self.wf(),
                self.tree_view().is_dir(id),
                self.tree == old(self).tree,
                self.visited == old(self).visited,
                self.in_flight == old(self).in_flight,
                old(self).in_flight().contains(id),
                forall|q: int| 0 <= q < k ==> entry_valid(#[trigger] es[q]),
            decreases es.len() - k,
        {
            if !entries[k].is_valid() {
                assert(!entry_valid(es[k as int]));
                self.abandon(id);
                return Err(FsError::BackendFailure);
            }
            k = k + 1;
        }
        if entries.len() as u64 >= self.tree.ids_left() {
            self.abandon(id);
            return Err(FsError::NoSpace);
        }
        let ghost old_tree = self.tree;
        insert_listing(&mut self.tree, id, entries);
        let ghost in_flight_before = self.in_flight@;
        self.in_flight = without_id(&self.in_flight, id);
        assert(self.in_flight() =~= Set::new(|x: u64| in_flight_before.contains(x)).remove(id));
        let ghost visited_before = self.visited@;
        self.visited.push(id);
        proof {
            lemma_push_contains(visited_before, id);
            assert(self.visited() =~= old(self).visited().insert(id));
            assert forall|x: u64| #[trigger] self.visited().contains(x) implies self.tree.is_dir(x) by {
                if x != id {
                    assert(old(self).visited().contains(x));
                    assert(old_tree.contains(x));
                }
            }
            assert forall|x: u64| #[trigger] self.in_flight().contains(x) implies self.tree.is_dir(x)
                && !self.visited().contains(x) by {
                assert(old(self).in_flight().contains(x));
                assert(old_tree.contains(x));
            }
            assert forall|x: u64| #[trigger] self.tree.is_dir(x) && !self.visited().contains(x)
                implies self.tree.children(x).len() == 0 by {
                if old_tree.contains(x) {
                    assert(self.tree.children(x) == old_tree.children(x));
                    assert(old_tree.is_dir(x));
                }
            }
        }
        Ok(())
    }

    /// The children of directory `id` as listing entries, in order.
    pub fn list(&self, id: u64) -> (r: Result<Vec<DirEntryInfo>, FsError>)
        requires
            self.wf(),
        ensures
            ({
                let t = self.tree_view();
                &&& !t.contains(id) ==> r == Err::<Vec<DirEntryInfo>, FsError>(FsError::NotFound)
                &&& t.contains(id) && !t.is_dir(id) ==> r == Err::<Vec<DirEntryInfo>, FsError>(FsError::Forbidden)
                &&& t.is_dir(id) ==> (r matches Ok(v) && (v@.len() == t.children(id).len() && forall|j: int|
                    0 <= j < v@.len() ==> {
                        let n = t.node(#[trigger] t.children(id)[j].1);
                        &&& v@[j].name@ == t.children(id)[j].0
                        &&& v@[j].is_dir == n.spec_is_dir()
                        &&& v@[j].size == n.spec_size()
                        &&& v@[j].mtime == n.spec_mtime()
                        &&& v@[j].crtime == n.spec_crtime()
                    }))
            }),
    {
        let children = self.tree.get_children(id)?;
        let ghost cs = self.tree.children(id);
        let mut out: Vec<DirEntryInfo> = Vec::new();
        let mut i: usize = 0;
        while i < children.len()
            invariant
                self.tree.wf(),
                self.tree.is_dir(id),
                cs == self.tree.children(id),
                crate::tree::child_entries(children@) == cs,
                i <= cs.len(),
                out@.len() == i,
                forall|j: int|
                    0 <= j < i ==> {
                        let n = self.tree.node(#[trigger] cs[j].1);
                        &&& out@[j].name@ == cs[j].0
                        &&& out@[j].is_dir == n.spec_is_dir()
                        &&& out@[j].size == n.spec_size()
                        &&& out@[j].mtime == n.spec_mtime()
                        &&& out@[j].crtime == n.spec_crtime()
                    },
            decreases cs.len() - i,
        {
            assert(cs[i as int] == (children@[i as int].0@, children@[i as int].1));
            assert(self.tree.children(id)[i as int] == cs[i as int]);
            let node = self.tree.get_node(children[i].1)?;
            out.push(node.as_dirent(children[i].0.as_slice()));
            i = i + 1;
        }
        Ok(out)
    }
}

/// Lookups are idempotent: a path that resolved keeps resolving to the same
/// node, with the same payload, in every later state, since `begin_list`
/// and `abandon` leave the tree as it is and `commit` only grows it.
pub proof fn lemma_lookup_idempotent(before: &FsCache, after: &FsCache, path: Seq<u8>)
    requires
        before.wf(),
        after.wf(),
        before.tree_view().grows_to(&after.tree_view()),
        before.tree_view().resolve(segments(path)) is Ok,
    ensures
        after.tree_view().resolve(segments(path)) == before.tree_view().resolve(segments(path)),
        after.tree_view().node(before.tree_view().resolve(segments(path))->Ok_0)
            == before.tree_view().node(before.tree_view().resolve(segments(path))->Ok_0),
{
    before.tree_view().lemma_resolve_stable(&after.tree_view(), ROOT_ID, segments(path));
}

/// A directory is fetched at most once at a time: after `begin_list` hands
/// out the fetch of a directory, every further request for it waits until
/// the fetch is committed or abandoned.
pub proof fn lemma_fetch_handed_out_once(first: &FsCache, after: &FsCache, path: Seq<u8>, other: Seq<u8>)
    requires
        first.wf(),
        first.list_outcome(path) matches Ok((_, ListStep::Fetch(_))),
        after.tree_view() == first.tree_view(),
        after.visited() == first.visited(),
        after.in_flight() == first.in_flight().insert(first.list_outcome(path)->Ok_0.0),
        first.tree_view().resolve(segments(other)) == first.tree_view().resolve(segments(path)),
    ensures
        after.list_outcome(other) == Ok::<(u64, ListStep), FsError>(
            (first.list_outcome(path)->Ok_0.0, ListStep::Wait),
        ),
{
}

/// A populated directory is never fetched again: every request for it is
/// served from the tree.
pub proof fn lemma_populated_served(c: &FsCache, path: Seq<u8>)
    requires
        c.list_outcome(path) is Ok,
        c.visited().contains(c.list_outcome(path)->Ok_0.0),
    ensures
        c.list_outcome(path) == Ok::<(u64, ListStep), FsError>(
            (c.list_outcome(path)->Ok_0.0, ListStep::Ready),
        ),
{
}

/// One inserted entry keeps the loop's account of a commit.
proof fn lemma_commit_step(
    old_tree: Tree,
    before: Tree,
    after: Tree,
    id: u64,
    es: Seq<FileInfo>,
    k: int,
    new_id: u64,
    node: Node,
    old_len: int,
    old_names: Seq<Seq<u8>>,
)
    requires
        before.is_dir(id),
        old_len >= 0,
        forall|j: int|
            0 <= j < before.children(id).len() ==> before.contains(#[trigger] before.children(id)[j].1)
                && before.children(id)[j].1 != id,
        0 <= k < es.len(),
        node_of_entry(es[k], node),
        !before.contains(new_id),
        before.inserted(&after, new_id, id, name_bytes(es[k]), node),
        before.grows_to(&after),
        old_tree.grows_to(&before),
        before.children(id).len() >= old_len,
        child_names(before.children(id)) == merge_names(old_names, entry_names(es).subrange(0, k)),
        described_by(before, id, old_len, es),
        crate::tree::find_child(before.children(id), name_bytes(es[k])) is None,
    ensures
        old_tree.grows_to(&after),
        after.children(id).len() >= old_len,
        child_names(after.children(id)) == merge_names(old_names, entry_names(es).subrange(0, k + 1)),
        described_by(after, id, old_len, es),
{
    let name = name_bytes(es[k]);
    let prefix = entry_names(es).subrange(0, k);
    assert(entry_names(es).subrange(0, k + 1) =~= prefix.push(name));
    lemma_names_contain(before.children(id), name);
    lemma_merge_step(old_names, prefix, name);
    old_tree.lemma_grows_trans(&before, &after);
    assert(after.children(id) == before.children(id).push((name, new_id)));
    assert(child_names(after.children(id)) =~= child_names(before.children(id)).push(name));
    lemma_merge_contains(old_names, prefix);
    assert forall|q2: int| 0 <= q2 < k implies name_bytes(#[trigger] es[q2]) != name by {
        assert(prefix[q2] == name_bytes(es[q2]));
    }
    assert forall|j: int|
        #![trigger after.children(id)[j]]
        old_len <= j < after.children(id).len() implies exists|q: int|
            first_named(es, after.children(id)[j].0, q) && node_of_entry(
                #[trigger] es[q],
                after.node(after.children(id)[j].1),
            ) by {
        if j == after.children(id).len() - 1 {
            assert(first_named(es, name, k));
            assert(node_of_entry(es[k], after.node(new_id)));
        } else {
            assert(j < before.children(id).len());
            let c = before.children(id)[j].1;
            assert(before.children(id)[j] == after.children(id)[j]);
            assert(before.contains(c));
            assert(c != id);
            assert(after.slots()[c] == before.slots()[c]);
        }
    }
}


/// Adds each entry of `entries` whose name is new under directory `id`.
#[verifier::rlimit(100)]
fn insert_listing(tree: &mut Tree, id: u64, entries: &Vec<FileInfo>)
    requires
        old(tree).wf(),
        old(tree).is_dir(id),
        forall|q: int| 0 <= q < entries@.len() ==> entry_valid(#[trigger] entries@[q]),
        old(tree).next_id() + entries@.len() < u64::MAX,
    ensures
        final(tree).wf(),
        old(tree).grows_to(&*final(tree)),
        child_names(final(tree).children(id)) == merge_names(
            child_names(old(tree).children(id)),
            entry_names(entries@),
        ),
        described_by(*final(tree), id, old(tree).children(id).len() as int, entries@),
        frame_kept(*old(tree), *final(tree), id, old(tree).children(id).len() as int),
{
    let ghost es = entries@;
    let ghost old_tree = *tree;
    let ghost old_names = child_names(old_tree.children(id));
    let ghost old_len = old_tree.children(id).len() as int;
    proof {
        old_tree.lemma_grows_refl();
        assert(entry_names(es).subrange(0, 0) =~= Seq::<Seq<u8>>::empty());
        assert(frame_kept(old_tree, *tree, id, old_len));
    }
    let mut k: usize = 0;
    while k < entries.len()
        invariant
            k <= es.len(),
            es == entries@,
            old_len == old_tree.children(id).len(),
            old_names == child_names(old_tree.children(id)),
            forall|q: int| 0 <= q < es.len() ==> entry_valid(#[trigger] es[q]),
            tree.wf(),
            old_tree.wf(),
            old_tree.is_dir(id),
            tree.is_dir(id),
            old_tree.grows_to(&*tree),
            tree.children(id).len() >= old_len,
            child_names(tree.children(id)) == merge_names(old_names, entry_names(es).subrange(0, k as int)),
            described_by(*tree, id, old_len, es),
            frame_kept(old_tree, *tree, id, old_len),
            tree.next_id() + (es.len() - k) < u64::MAX,
        decreases es.len() - k,
    {
        let ghost before = *tree;
        let ghost prefix = entry_names(es).subrange(0, k as int);
        let name = entries[k].name_bytes();
        // Every entry was checked before the loop, so the conversion succeeds.
        let node = match entries[k].to_node() {
            Ok(n) => n,
            Err(_) => {
                return;
            },
        };
        proof {
            assert(entry_names(es).subrange(0, k + 1) =~= prefix.push(name@));
        }
        let added = tree.add_child(entries[k].id, id, name.as_slice(), node, false);
        proof {
            // No node holds the counter's identity, so a new child always gets one.
            assert(before.contains(before.next_id()) ==> before.next_id() < before.next_id());
            match added {
                Ok(new_id) => {
                    before.lemma_inserted_grows(tree, new_id, id, name@, node);
                    assert forall|j: int|
                        0 <= j < before.children(id).len() implies before.contains(#[trigger] before.children(id)[j].1)
                            && before.children(id)[j].1 != id by {
                        assert(before.depth()[before.children(id)[j].1] == before.depth()[id] + 1);
                    }
                    lemma_commit_step(old_tree, before, *tree, id, es, k as int, new_id, node, old_len, old_names);
                    lemma_commit_frame(old_tree, before, *tree, id, new_id, name@, node, old_len);
                },
                Err(_) => {
                    lemma_names_contain(before.children(id), name@);
                    lemma_merge_step(old_names, prefix, name@);
                },
            }
        }
        k = k + 1;
    }
    proof {
        assert(entry_names(es).subrange(0, es.len() as int) =~= entry_names(es));
    }
}

/// What a commit leaves alone: other directories keep their children, and
/// every new node is an empty child of the listed directory, with a fresh
/// identity.
pub open spec fn frame_kept(old_tree: Tree, t: Tree, id: u64, old_len: int) -> bool {
    &&& forall|k: u64| #[trigger] old_tree.contains(k) && k != id ==> t.children(k) == old_tree.children(k)
    &&& forall|k: u64|
        #[trigger] t.contains(k) && !old_tree.contains(k) ==> t.parent(k) == id && t.children(k).len() == 0
    &&& forall|j: int|
        old_len <= j < t.children(id).len() ==> !old_tree.contains(#[trigger] t.children(id)[j].1)
}

proof fn lemma_commit_frame(
    old_tree: Tree,
    before: Tree,
    after: Tree,
    id: u64,
    new_id: u64,
    name: Seq<u8>,
    node: Node,
    old_len: int,
)
    requires
        old_tree.contains(id),
        old_tree.grows_to(&before),
        before.inserted(&after, new_id, id, name, node),
        !before.contains(new_id),
        before.children(id).len() >= old_len,
        old_len >= 0,
        frame_kept(old_tree, before, id, old_len),
    ensures
        frame_kept(old_tree, after, id, old_len),
{
    assert forall|k: u64| #[trigger] old_tree.contains(k) && k != id implies after.children(k)
        == old_tree.children(k) by {
        assert(before.contains(k));
        assert(after.slots()[k] == before.slots()[k]);
    }
    assert forall|k: u64| #[trigger] after.contains(k) && !old_tree.contains(k) implies after.parent(k)
        == id && after.children(k).len() == 0 by {
        if k != new_id {
            assert(before.slots().dom().contains(k));
            assert(before.contains(k));
            assert(after.slots()[k] == before.slots()[k]);
        }
    }
    assert forall|j: int| old_len <= j < after.children(id).len() implies !old_tree.contains(
        #[trigger] after.children(id)[j].1,
    ) by {
        assert(after.children(id) == before.children(id).push((name, new_id)));
        if j < before.children(id).len() {
            assert(after.children(id)[j] == before.children(id)[j]);
        } else {
            assert(after.children(id)[j].1 == new_id);
            if old_tree.contains(new_id) {
                assert(before.contains(new_id));
            }
        }
    }
}

proof fn lemma_merge_step(names: Seq<Seq<u8>>, prefix: Seq<Seq<u8>>, name: Seq<u8>)
    ensures
        merge_names(names, prefix.push(name)) == if merge_names(names, prefix).contains(name) {
            merge_names(names, prefix)
        } else {
            merge_names(names, prefix).push(name)
        },
{
    assert(prefix.push(name).drop_last() =~= prefix);
}

proof fn lemma_names_contain(cs: Seq<(Seq<u8>, u64)>, name: Seq<u8>)
    ensures
        child_names(cs).contains(name) <==> crate::tree::find_child(cs, name) is Some,
{
    if child_names(cs).contains(name) {
        let i = choose|i: int| 0 <= i < child_names(cs).len() && child_names(cs)[i] == name;
        assert(cs[i].0 == name);
    }
    if crate::tree::find_child(cs, name) is Some {
        let i = choose|i: int| 0 <= i < cs.len() && #[trigger] cs[i].0 == name;
        assert(child_names(cs)[i] == name);
    }
}

/// Every name of `names` and of `items` is in their merge.
proof fn lemma_merge_contains(names: Seq<Seq<u8>>, items: Seq<Seq<u8>>)
    ensures
        forall|q: int| 0 <= q < items.len() ==> merge_names(names, items).contains(#[trigger] items[q]),
    decreases items.len(),
{
    if items.len() > 0 {
        let init = items.drop_last();
        lemma_merge_contains(names, init);
        let m = merge_names(names, init);
        assert forall|q: int| 0 <= q < items.len() implies merge_names(names, items).contains(#[trigger] items[q]) by {
            if q < items.len() - 1 {
                assert(init[q] == items[q]);
                assert(m.contains(items[q]));
                if !m.contains(items.last()) {
                    let i = choose|i: int| 0 <= i < m.len() && m[i] == items[q];
                    assert(m.push(items.last())[i] == items[q]);
                }
            } else {
                if !m.contains(items.last()) {
                    assert(m.push(items.last())[m.len() as int] == items.last());
                }
            }
        }
    }
}

/// Whether `v` holds `id`.
fn contains_id(v: &Vec<u64>, id: u64) -> (r: bool)
    ensures
        r == v@.contains(id),
{
    let mut i: usize = 0;
    while i < v.len()
        invariant
            i <= v@.len(),
            forall|j: int| 0 <= j < i ==> v@[j] != id,
        decreases v@.len() - i,
    {
        if v[i] == id {
            return true;
        }
        i = i + 1;
    }
    false
}

/// `v` without `id`.
fn without_id(v: &Vec<u64>, id: u64) -> (r: Vec<u64>)
    ensures
        forall|x: u64| r@.contains(x) <==> v@.contains(x) && x != id,
{
    let mut out: Vec<u64> = Vec::new();
    let mut i: usize = 0;
    while i < v.len()
        invariant
            i <= v@.len(),
            forall|x: u64| out@.contains(x) <==> (x != id && exists|j: int| 0 <= j < i && v@[j] == x),
        decreases v@.len() - i,
    {
        let ghost prev = out@;
        let x0 = v[i];
        if x0 != id {
            out.push(x0);
            proof {
                lemma_push_contains(prev, x0);
            }
        }
        proof {
            assert forall|x: u64| out@.contains(x) <==> (x != id && exists|j: int| 0 <= j < i + 1 && v@[j] == x) by {
                if x == x0 && x != id {
                    assert(v@[i as int] == x);
                }
                if x != id && x != x0 && (exists|j: int| 0 <= j < i + 1 && v@[j] == x) {
                    let j = choose|j: int| 0 <= j < i + 1 && v@[j] == x;
                    assert(j < i);
                }
            }
        }
        i = i + 1;
    }
    proof {
        assert forall|x: u64| v@.contains(x) <==> exists|j: int| 0 <= j < v@.len() && v@[j] == x by {
            if v@.contains(x) {
                let j = choose|j: int| 0 <= j < v@.len() && v@[j] == x;
            }
        }
    }
    out
}

proof fn lemma_push_contains(s: Seq<u64>, a: u64)
    ensures
        forall|x: u64| #[trigger] s.push(a).contains(x) <==> s.contains(x) || x == a,
{
    assert forall|x: u64| #[trigger] s.push(a).contains(x) <==> s.contains(x) || x == a by {
        if s.contains(x) {
            let k = choose|k: int| 0 <= k < s.len() && s[k] == x;
            assert(s.push(a)[k] == x);
        }
        if x == a {
            assert(s.push(a)[s.len() as int] == x);
        }
        if s.push(a).contains(x) && x != a {
            let k = choose|k: int| 0 <= k < s.len() + 1 && s.push(a)[k] == x;
            assert(s[k] == x);
        }
    }
}

} // verus!
