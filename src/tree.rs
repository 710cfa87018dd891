use std::collections::HashMap;
use vstd::prelude::*;
use vstd::slice::slice_to_vec;
use crate::error::FsError;
use crate::node::Node;
use crate::path::{lemma_segments_append, path_segments, segments, SEPARATOR};

verus! {

broadcast use vstd::std_specs::hash::group_hash_axioms;

/// Identity of the root directory.
pub const ROOT_ID: u64 = 1;

/// A node with its place in the tree: its parent and its children, each
/// child a name and an identity, in order of insertion.
#[derive(Debug)]
pub struct Slot {
    pub node: Node,
    pub parent: u64,
    pub children: Vec<(Vec<u8>, u64)>,
}

/// The tree of nodes: an arena of slots addressed by identity.
pub struct Tree {
    slots: HashMap<u64, Slot>,
    next_id: u64,
    depth: Ghost<Map<u64, nat>>,
}

/// The identity of the child named `name` among `cs`, if any.
pub open spec fn find_child(cs: Seq<(Seq<u8>, u64)>, name: Seq<u8>) -> Option<u64> {
    if exists|i: int| 0 <= i < cs.len() && #[trigger] cs[i].0 == name {
        Some(cs[choose|i: int| 0 <= i < cs.len() && #[trigger] cs[i].0 == name].1)
    } else {
        None
    }
}

/// Names and identities of a list of children.
pub open spec fn child_entries(v: Seq<(Vec<u8>, u64)>) -> Seq<(Seq<u8>, u64)> {
    Seq::new(v.len(), |i: int| (v[i].0@, v[i].1))
}

/// No two entries of `cs` share a name.
pub open spec fn names_unique(cs: Seq<(Seq<u8>, u64)>) -> bool {
    forall|i: int, j: int|
        0 <= i < cs.len() && 0 <= j < cs.len() && #[trigger] cs[i].0 == #[trigger] cs[j].0 ==> i
            == j
}

/// No identity appears twice in `cs`: no node is listed under two names.
pub open spec fn ids_unique(cs: Seq<(Seq<u8>, u64)>) -> bool {
    forall|i: int, j: int|
        0 <= i < cs.len() && 0 <= j < cs.len() && #[trigger] cs[i].1 == #[trigger] cs[j].1 ==> i
            == j
}

impl Tree {
    /// The slots, by identity.
    pub closed spec fn slots(&self) -> Map<u64, Slot> {
        self.slots@
    }

    /// The identity that the next allocation without a usable hint takes.
    pub closed spec fn next_id(&self) -> u64 {
        self.next_id
    }

    /// Distance of each node from the root.
    pub closed spec fn depth(&self) -> Map<u64, nat> {
        self.depth@
    }

    pub open spec fn contains(&self, id: u64) -> bool {
        self.slots().contains_key(id)
    }

    pub open spec fn node(&self, id: u64) -> Node {
        self.slots()[id].node
    }

    pub open spec fn parent(&self, id: u64) -> u64 {
        self.slots()[id].parent
    }

    /// The children of `id` as names and identities, in order of insertion.
    pub open spec fn children(&self, id: u64) -> Seq<(Seq<u8>, u64)> {
        child_entries(self.slots()[id].children@)
    }

    pub open spec fn is_dir(&self, id: u64) -> bool {
        self.contains(id) && self.node(id).spec_is_dir()
    }

    /// The identity of `parent`'s child named `name`.
    pub open spec fn child(&self, parent: u64, name: Seq<u8>) -> Option<u64> {
        find_child(self.children(parent), name)
    }

    /// Well-formedness: the root is a directory that is its own parent; every
    /// listed child exists, names its lister as parent and sits one level
    /// deeper; sibling names are unique, and so are sibling identities (no
    /// hard links); every other node is listed by its
    /// parent; identities stay below the allocation counter; file contents
    /// hold their recorded sizes.
    pub open spec fn wf(&self) -> bool {
        &&& self.contains(ROOT_ID)
        &&& self.node(ROOT_ID).spec_is_dir()
        &&& self.parent(ROOT_ID) == ROOT_ID
        &&& self.depth().contains_key(ROOT_ID)
        &&& self.depth()[ROOT_ID] == 0
        &&& forall|id: u64| #[trigger] self.contains(id) ==> id < self.next_id()
        &&& forall|id: u64| #[trigger] self.contains(id) ==> self.node(id).wf()
        &&& forall|id: u64| #[trigger] self.contains(id) ==> self.depth().contains_key(id)
        &&& forall|id: u64| #[trigger]
            self.contains(id) ==> names_unique(self.children(id))
        &&& forall|id: u64| #[trigger]
            self.contains(id) ==> ids_unique(self.children(id))
        &&& forall|id: u64, i: int|
            #![trigger self.children(id)[i]]
            self.contains(id) && 0 <= i < self.children(id).len() ==> {
                let c = self.children(id)[i].1;
                &&& self.contains(c)
                &&& c != ROOT_ID
                &&& self.parent(c) == id
                &&& self.depth()[c] == self.depth()[id] + 1
            }
        &&& forall|id: u64|
            #[trigger] self.contains(id) && id != ROOT_ID ==> {
                let p = self.parent(id);
                &&& self.contains(p)
                &&& exists|i: int|
                    0 <= i < self.children(p).len() && #[trigger] self.children(p)[i].1 == id
            }
    }

    /// Walks `segs` from `id`: each segment must name a child of the
    /// directory reached so far; a segment met at a file is a traversal
    /// through it.
    pub open spec fn resolve_from(&self, id: u64, segs: Seq<Seq<u8>>) -> Result<u64, FsError>
        decreases segs.len(),
    {
        if segs.len() == 0 {
            Ok(id)
        } else if !self.contains(id) {
            Err(FsError::NotFound)
        } else if !self.node(id).spec_is_dir() {
            Err(FsError::Forbidden)
        } else {
            match self.child(id, segs[0]) {
                None => Err(FsError::NotFound),
                Some(c) => self.resolve_from(c, segs.drop_first()),
            }
        }
    }

    /// The node that `segs` leads to from the root.
    pub open spec fn resolve(&self, segs: Seq<Seq<u8>>) -> Result<u64, FsError> {
        self.resolve_from(ROOT_ID, segs)
    }

    /// The identity that a new child suggested as `suggested` receives: the
    /// hint when it is free and not above the allocation counter, else the
    /// counter.
    pub open spec fn allocated_id(&self, suggested: u64) -> u64 {
        if !self.contains(suggested) && suggested < self.next_id() {
            suggested
        } else {
            self.next_id()
        }
    }

    /// A tree holding only `root`, under the root identity.
    pub fn new(root: Node) -> (t: Tree)
        requires
            root.spec_is_dir(),
        ensures
            t.wf(),
            t.slots().dom() == set![ROOT_ID],
            t.node(ROOT_ID) == root,
            t.children(ROOT_ID).len() == 0,
    {
        let mut slots: HashMap<u64, Slot> = HashMap::new();
        slots.insert(ROOT_ID, Slot { node: root, parent: ROOT_ID, children: Vec::new() });
        let ghost depth = map![ROOT_ID => 0nat];
        let t = Tree { slots, next_id: ROOT_ID + 1, depth: Ghost(depth) };
        proof {
            assert(t.slots().dom() =~= set![ROOT_ID]);
            assert(t.children(ROOT_ID) =~= Seq::empty());
        }
        t
    }

    /// The node with identity `id`.
    pub fn get_node(&self, id: u64) -> (r: Result<&Node, FsError>)
        ensures
            self.contains(id) ==> r == Ok::<&Node, FsError>(&self.node(id)),
            !self.contains(id) ==> r == Err::<&Node, FsError>(FsError::NotFound),
    {
        match self.slots.get(&id) {
            Some(s) => Ok(&s.node),
            None => Err(FsError::NotFound),
        }
    }

    /// The identity of `parent`'s child named `name`.
    pub fn get_child(&self, parent: u64, name: &[u8]) -> (r: Result<u64, FsError>)
        requires
            self.wf(),
        ensures
            r == match (self.contains(parent), self.child(parent, name@)) {
                (true, Some(c)) => Ok::<u64, FsError>(c),
                _ => Err(FsError::NotFound),
            },
    {
        match self.slots.get(&parent) {
            None => Err(FsError::NotFound),
            Some(s) => {
                let ghost cs = self.children(parent);
                let mut i: usize = 0;
                while i < s.children.len()
                    invariant
                        self.contains(parent),
                        s == self.slots()[parent],
                        cs == child_entries(s.children@),
                        names_unique(cs),
                        i <= cs.len(),
                        forall|j: int| 0 <= j < i ==> #[trigger] cs[j].0 != name@,
                    decreases cs.len() - i,
                {
                    if vec_eq(&s.children[i].0, name) {
                        proof {
                            let j = choose|j: int| 0 <= j < cs.len() && #[trigger] cs[j].0 == name@;
                            assert(cs[j].0 == cs[i as int].0);
                        }
                        return Ok(s.children[i].1);
                    }
                    i = i + 1;
                }
                Err(FsError::NotFound)
            },
        }
    }

    /// What inserting `name` under `parent` gives: the parent must be a
    /// directory; a taken name is refused unless `replace` asks for it and
    /// the child there has no children; a new child takes the identity that
    /// `allocated_id` picks, and fails only when none is left.
    pub open spec fn add_result(&self, suggested: u64, parent: u64, name: Seq<u8>, replace: bool) -> Result<u64, FsError> {
        if !self.contains(parent) {
            Err(FsError::NotFound)
        } else if !self.node(parent).spec_is_dir() {
            Err(FsError::Forbidden)
        } else {
            match self.child(parent, name) {
                Some(c) => if replace && self.children(c).len() == 0 {
                    Ok(c)
                } else {
                    Err(FsError::AlreadyExists)
                },
                None => if self.allocated_id(suggested) == u64::MAX {
                    Err(FsError::NoSpace)
                } else {
                    Ok(self.allocated_id(suggested))
                },
            }
        }
    }

    /// `new` is `self` with a new child `id` of `parent`, named `name` and
    /// holding `node`, appended to the parent's children.
    pub open spec fn inserted(&self, new: &Tree, id: u64, parent: u64, name: Seq<u8>, node: Node) -> bool {
        &&& new.slots().dom() == self.slots().dom().insert(id)
        &&& new.node(id) == node
        &&& new.parent(id) == parent
        &&& new.children(id).len() == 0
        &&& new.node(parent) == self.node(parent)
        &&& new.parent(parent) == self.parent(parent)
        &&& new.children(parent) == self.children(parent).push((name, id))
        &&& forall|k: u64| k != parent && k != id ==> #[trigger] new.slots()[k] == self.slots()[k]
        &&& new.next_id() == if id == self.next_id() { (self.next_id() + 1) as u64 } else { self.next_id() }
    }

    /// `new` is `self` with the payload of node `id` replaced by `node`.
    pub open spec fn replaced(&self, new: &Tree, id: u64, node: Node) -> bool {
        &&& new.slots().dom() == self.slots().dom()
        &&& new.node(id) == node
        &&& new.parent(id) == self.parent(id)
        &&& new.children(id) == self.children(id)
        &&& forall|k: u64| k != id ==> #[trigger] new.slots()[k] == self.slots()[k]
        &&& new.next_id() == self.next_id()
    }

    /// The node that the segments `segs` lead to.
    pub fn lookup_segs(&self, segs: &Vec<Vec<u8>>) -> (r: Result<u64, FsError>)
        requires
            self.wf(),
        ensures
            r == self.resolve(segs.deep_view()),
            r is Ok ==> self.contains(r->Ok_0),
    {
        let ghost sv = segs.deep_view();
        let mut id: u64 = ROOT_ID;
        let mut i: usize = 0;
        proof {
            assert(sv.subrange(0, sv.len() as int) =~= sv);
        }
        while i < segs.len()
            invariant
                self.wf(),
                sv == segs.deep_view(),
                i <= sv.len(),
                self.contains(id),
                self.resolve(sv) == self.resolve_from(id, sv.subrange(i as int, sv.len() as int)),
            decreases sv.len() - i,
        {
            let ghost rest = sv.subrange(i as int, sv.len() as int);
            proof {
                assert(rest.drop_first() =~= sv.subrange(i + 1, sv.len() as int));
                assert(segs@[i as int].deep_view() =~= segs@[i as int]@);
            }
            let node = self.get_node(id);
            match node {
                Ok(n) => {
                    if !n.is_dir() {
                        return Err(FsError::Forbidden);
                    }
                },
                Err(e) => {
                    return Err(e);
                },
            }
            match self.get_child(id, segs[i].as_slice()) {
                Ok(c) => {
                    proof {
                        self.lemma_child_contained(id, rest[0]);
                    }
                    id = c;
                },
                Err(e) => {
                    return Err(e);
                },
            }
            i = i + 1;
        }
        Ok(id)
    }

    /// The node that `path` names.
    pub fn lookup(&self, path: &[u8]) -> (r: Result<u64, FsError>)
        requires
            self.wf(),
        ensures
            r == self.resolve(segments(path@)),
            r is Ok ==> self.contains(r->Ok_0),
    {
        let segs = path_segments(path);
        self.lookup_segs(&segs)
    }

    /// The directory that would hold `path`: the node its segments but the
    /// last lead to, which must be a directory.
    pub fn lookup_parent(&self, path: &[u8]) -> (r: Result<u64, FsError>)
        requires
            self.wf(),
        ensures
            ({
                let s = segments(path@);
                let ps = if s.len() > 0 { s.drop_last() } else { s };
                r == match self.resolve(ps) {
                    Ok(id) => if self.is_dir(id) { Ok(id) } else { Err(FsError::Forbidden) },
                    Err(e) => Err(e),
                }
            }),
    {
        let mut segs = path_segments(path);
        let ghost before = segs.deep_view();
        let _ = segs.pop();
        proof {
            if before.len() > 0 {
                assert(segs.deep_view() =~= before.drop_last());
            } else {
                assert(segs.deep_view() =~= before);
            }
        }
        let id = self.lookup_segs(&segs)?;
        let node = self.get_node(id)?;
        if !node.is_dir() {
            return Err(FsError::Forbidden);
        }
        Ok(id)
    }

    /// The children of directory `id`, as names and identities in order of
    /// insertion.
    pub fn get_children(&self, id: u64) -> (r: Result<Vec<(Vec<u8>, u64)>, FsError>)
        ensures
            !self.contains(id) ==> r == Err::<Vec<(Vec<u8>, u64)>, FsError>(FsError::NotFound),
            self.contains(id) && !self.is_dir(id) ==> r == Err::<Vec<(Vec<u8>, u64)>, FsError>(
                FsError::Forbidden,
            ),
            self.is_dir(id) ==> (r matches Ok(v) && child_entries(v@) == self.children(id)),
    {
        match self.slots.get(&id) {
            None => Err(FsError::NotFound),
            Some(s) => {
                if !s.node.is_dir() {
                    return Err(FsError::Forbidden);
                }
                let mut out: Vec<(Vec<u8>, u64)> = Vec::new();
                let mut i: usize = 0;
                while i < s.children.len()
                    invariant
                        i <= s.children@.len(),
                        out@.len() == i,
                        forall|j: int|
                            0 <= j < i ==> #[trigger] out@[j].0@ == s.children@[j].0@ && out@[j].1
                                == s.children@[j].1,
                    decreases s.children@.len() - i,
                {
                    let name = slice_to_vec(s.children[i].0.as_slice());
                    out.push((name, s.children[i].1));
                    i = i + 1;
                }
                assert(child_entries(out@) =~= child_entries(s.children@));
                Ok(out)
            },
        }
    }

    /// Inserts `node` as the child `name` of `parent`. A free hint not above
    /// the allocation counter becomes the child's identity; otherwise the
    /// tree allocates a fresh one. A taken name is refused, unless `replace`
    /// asks to replace a child that has no children: it then keeps its
    /// identity and takes the new payload.
    pub fn add_child(&mut self, suggested: u64, parent: u64, name: &[u8], node: Node, replace: bool) -> (r: Result<u64, FsError>)
        requires
            old(self).wf(),
            node.wf(),
        ensures
            final(self).wf(),
            r == old(self).add_result(suggested, parent, name@, replace),
            r is Err ==> *final(self) == *old(self),
            (r matches Ok(id) && old(self).contains(id)) ==> old(self).replaced(final(self), r->Ok_0, node),
            (r matches Ok(id) && !old(self).contains(id)) ==> old(self).inserted(
                final(self),
                r->Ok_0,
                parent,
                name@,
                node,
            ),
    {
        let is_dir = match self.slots.get(&parent) {
            None => {
                return Err(FsError::NotFound);
            },
            Some(p) => p.node.is_dir(),
        };
        if !is_dir {
            return Err(FsError::Forbidden);
        }
        match self.get_child(parent, name) {
            Ok(c) => {
                proof {
                    self.lemma_child_contained(parent, name@);
                }
                if !replace {
                    return Err(FsError::AlreadyExists);
                }
                let n_children = match self.slots.get(&c) {
                    Some(cs) => cs.children.len(),
                    None => 0,
                };
                if n_children > 0 {
                    return Err(FsError::AlreadyExists);
                }
                self.replace_payload(c, node);
                Ok(c)
            },
            Err(_) => {
                let id = if !self.slots.contains_key(&suggested) && suggested < self.next_id {
                    suggested
                } else {
                    self.next_id
                };
                if id == u64::MAX {
                    return Err(FsError::NoSpace);
                }
                self.insert_new(id, parent, name, node);
                Ok(id)
            },
        }
    }

    proof fn lemma_child_contained(&self, p: u64, name: Seq<u8>)
        requires
            self.wf(),
            self.contains(p),
            self.child(p, name) is Some,
        ensures
            ({
                let c = self.child(p, name)->0;
                &&& self.contains(c)
                &&& c != ROOT_ID
                &&& self.parent(c) == p
                &&& self.depth()[c] == self.depth()[p] + 1
            }),
    {
        let cs = self.children(p);
        let i = choose|i: int| 0 <= i < cs.len() && #[trigger] cs[i].0 == name;
        assert(self.children(p)[i].1 == self.child(p, name)->0);
    }

    /// Replaces the payload of the non-root node `c`.
    fn replace_payload(&mut self, c: u64, node: Node)
        requires
            old(self).wf(),
            old(self).contains(c),
            c != ROOT_ID,
            node.wf(),
        ensures
            final(self).wf(),
            old(self).replaced(final(self), c, node),
    {
        let ghost old_tree = *self;
        let mut slot = self.slots.remove(&c).unwrap();
        slot.node = node;
        self.slots.insert(c, slot);
        proof {
            assert(self.slots() =~= old_tree.slots().insert(c, slot));
            assert(self.slots()[c].children == old_tree.slots()[c].children);
            assert forall|k: u64| k != c implies #[trigger] self.slots()[k] == old_tree.slots()[k] by {}
            assert forall|k: u64| #[trigger] self.contains(k) implies self.children(k) == old_tree.children(k)
                && self.parent(k) == old_tree.parent(k) by {
                if k != c {
                    assert(self.slots()[k] == old_tree.slots()[k]);
                }
            }
            assert forall|id: u64| #[trigger] self.contains(id) && id != ROOT_ID implies ({
                let p = self.parent(id);
                &&& self.contains(p)
                &&& exists|i: int|
                    0 <= i < self.children(p).len() && #[trigger] self.children(p)[i].1 == id
            }) by {
                assert(old_tree.contains(id));
                let p = old_tree.parent(id);
                assert(old_tree.contains(p));
                let i = choose|i: int|
                    0 <= i < old_tree.children(p).len() && #[trigger] old_tree.children(p)[i].1 == id;
                assert(self.contains(p));
                assert(self.children(p) == old_tree.children(p));
                assert(self.children(p)[i].1 == id);
            }
        }
    }

    /// Adds the new node `id` as the last child `name` of directory `parent`.
    fn insert_new(&mut self, id: u64, parent: u64, name: &[u8], node: Node)
        requires
            old(self).wf(),
            old(self).contains(parent),
            old(self).node(parent).spec_is_dir(),
            !old(self).contains(id),
            old(self).child(parent, name@) is None,
            id < u64::MAX,
            id <= old(self).next_id(),
            node.wf(),
        ensures
            final(self).wf(),
            old(self).inserted(final(self), id, parent, name@, node),
    {
        let ghost old_tree = *self;
        let mut pslot = self.slots.remove(&parent).unwrap();
        let ghost old_children = pslot.children@;
        pslot.children.push((slice_to_vec(name), id));
        let ghost pslot_v = pslot;
        self.slots.insert(parent, pslot);
        self.slots.insert(id, Slot { node, parent, children: Vec::new() });
        if id == self.next_id {
            self.next_id = self.next_id + 1;
        }
        self.depth = Ghost(self.depth@.insert(id, self.depth@[parent] + 1));
        proof {
            assert(child_entries(pslot_v.children@) =~= old_tree.children(parent).push((name@, id)));
            assert(self.children(id) =~= Seq::empty());
            assert(self.slots().dom() =~= old_tree.slots().dom().insert(id));
            assert forall|k: u64| k != parent && k != id implies #[trigger] self.slots()[k] == old_tree.slots()[k] by {}
            assert(names_unique(self.children(parent))) by {
                let cs = self.children(parent);
                assert forall|i: int, j: int|
                    0 <= i < cs.len() && 0 <= j < cs.len() && #[trigger] cs[i].0 == #[trigger] cs[j].0 implies i == j by {
                    if i < cs.len() - 1 && j == cs.len() - 1 {
                        assert(old_tree.children(parent)[i].0 == name@);
                    } else if j < cs.len() - 1 && i == cs.len() - 1 {
                        assert(old_tree.children(parent)[j].0 == name@);
                    } else if i < cs.len() - 1 && j < cs.len() - 1 {
                        assert(old_tree.children(parent)[i].0 == old_tree.children(parent)[j].0);
                    }
                }
            }
            assert(ids_unique(self.children(parent))) by {
                let cs = self.children(parent);
                let n = cs.len() - 1;
                assert forall|i: int, j: int|
                    0 <= i < cs.len() && 0 <= j < cs.len() && #[trigger] cs[i].1 == #[trigger] cs[j].1 implies i == j by {
                    if i < n && j < n {
                        assert(old_tree.children(parent)[i].1 == old_tree.children(parent)[j].1);
                    } else if i < n {
                        assert(old_tree.contains(old_tree.children(parent)[i].1));
                    } else if j < n {
                        assert(old_tree.contains(old_tree.children(parent)[j].1));
                    }
                }
            }
            assert forall|p: u64, i: int|
                self.contains(p) && 0 <= i < self.children(p).len() implies {
                    let c = #[trigger] self.children(p)[i].1;
                    &&& self.contains(c)
                    &&& c != ROOT_ID
                    &&& self.parent(c) == p
                    &&& self.depth()[c] == self.depth()[p] + 1
                } by {
                if p == parent {
                    if i < old_tree.children(parent).len() {
                        assert(old_tree.children(parent)[i] == self.children(parent)[i]);
                    }
                } else if p != id {
                    assert(old_tree.children(p)[i] == self.children(p)[i]);
                }
            }
            assert forall|k: u64| #[trigger] self.contains(k) && k != ROOT_ID implies ({
                let p = self.parent(k);
                &&& self.contains(p)
                &&& exists|i: int|
                    0 <= i < self.children(p).len() && #[trigger] self.children(p)[i].1 == k
            }) by {
                if k == id {
                    let n = self.children(parent).len() - 1;
                    assert(self.children(parent)[n].1 == id);
                } else {
                    assert(old_tree.contains(k));
                    if k != parent {
                        assert(self.slots()[k] == old_tree.slots()[k]);
                    }
                    assert(self.parent(k) == old_tree.parent(k));
                    let p = old_tree.parent(k);
                    assert(old_tree.contains(p));
                    let i = choose|i: int|
                        0 <= i < old_tree.children(p).len() && #[trigger] old_tree.children(p)[i].1 == k;
                    if p == parent {
                        assert(self.children(p)[i] == old_tree.children(p)[i]);
                    } else {
                        assert(self.slots()[p] == old_tree.slots()[p]);
                    }
                    assert(self.children(p)[i].1 == k);
                }
            }
        }
    }

    /// `new` keeps every node of `self` with its payload, its parent and
    /// its children, to which it may only append.
    pub open spec fn grows_to(&self, new: &Tree) -> bool {
        forall|k: u64| #[trigger] self.contains(k) ==> {
            &&& new.contains(k)
            &&& new.node(k) == self.node(k)
            &&& new.parent(k) == self.parent(k)
            &&& self.children(k).is_prefix_of(new.children(k))
        }
    }

    pub proof fn lemma_grows_refl(&self)
        ensures
            self.grows_to(self),
    {
        assert forall|k: u64| #[trigger] self.contains(k) implies self.children(k).is_prefix_of(
            self.children(k),
        ) by {
            assert(self.children(k).subrange(0, self.children(k).len() as int) =~= self.children(k));
        }
    }

    pub proof fn lemma_grows_trans(&self, mid: &Tree, new: &Tree)
        requires
            self.grows_to(mid),
            mid.grows_to(new),
        ensures
            self.grows_to(new),
    {
        assert forall|k: u64| #[trigger] self.contains(k) implies {
            &&& new.contains(k)
            &&& new.node(k) == self.node(k)
            &&& new.parent(k) == self.parent(k)
            &&& self.children(k).is_prefix_of(new.children(k))
        } by {
            assert(mid.contains(k));
            let a = self.children(k);
            let b = mid.children(k);
            let c = new.children(k);
            assert forall|i: int| 0 <= i < a.len() implies a[i] == c[i] by {
                assert(a[i] == b[i]);
                assert(b[i] == c[i]);
            }
            assert(c.subrange(0, a.len() as int) =~= a);
        }
    }

    pub proof fn lemma_inserted_grows(&self, new: &Tree, id: u64, parent: u64, name: Seq<u8>, node: Node)
        requires
            self.wf(),
            !self.contains(id),
            self.contains(parent),
            self.inserted(new, id, parent, name, node),
        ensures
            self.grows_to(new),
    {
        assert forall|k: u64| #[trigger] self.contains(k) implies {
            &&& new.contains(k)
            &&& new.node(k) == self.node(k)
            &&& new.parent(k) == self.parent(k)
            &&& self.children(k).is_prefix_of(new.children(k))
        } by {
            assert(new.slots().dom().contains(k));
            if k == parent {
                assert(new.children(k).subrange(0, self.children(k).len() as int) =~= self.children(k));
            } else {
                assert(new.slots()[k] == self.slots()[k]);
                assert(new.children(k).subrange(0, self.children(k).len() as int) =~= self.children(k));
            }
        }
    }

    /// A child found under a name stays found, with the same identity, in a
    /// tree that grew.
    pub proof fn lemma_child_stable(&self, new: &Tree, p: u64, name: Seq<u8>)
        requires
            self.wf(),
            new.wf(),
            self.grows_to(new),
            self.contains(p),
            self.child(p, name) is Some,
        ensures
            new.child(p, name) == self.child(p, name),
    {
        let cs = self.children(p);
        let ns = new.children(p);
        assert(new.contains(p));
        let i = choose|i: int| 0 <= i < cs.len() && #[trigger] cs[i].0 == name;
        assert(ns[i] == cs[i]);
        let j = choose|j: int| 0 <= j < ns.len() && #[trigger] ns[j].0 == name;
        assert(ns[j].0 == ns[i].0);
    }

    /// Resolving a path succeeds the same way, to the same node with the same
    /// payload, in every tree that grew from this one.
    pub proof fn lemma_resolve_stable(&self, new: &Tree, id: u64, segs: Seq<Seq<u8>>)
        requires
            self.wf(),
            new.wf(),
            self.grows_to(new),
            self.contains(id),
            self.resolve_from(id, segs) is Ok,
        ensures
            new.resolve_from(id, segs) == self.resolve_from(id, segs),
            self.contains(self.resolve_from(id, segs)->Ok_0),
            new.node(self.resolve_from(id, segs)->Ok_0) == self.node(self.resolve_from(id, segs)->Ok_0),
        decreases segs.len(),
    {
        if segs.len() > 0 {
            self.lemma_child_contained(id, segs[0]);
            self.lemma_child_stable(new, id, segs[0]);
            let c = self.child(id, segs[0])->0;
            self.lemma_resolve_stable(new, c, segs.drop_first());
        }
    }

    /// How many identities are left above the allocation counter.
    pub fn ids_left(&self) -> (r: u64)
        ensures
            r == u64::MAX - self.next_id(),
    {
        u64::MAX - self.next_id
    }

    /// Resolving segments followed by one more walks the first ones, then
    /// the last from where they led.
    pub proof fn lemma_resolve_push(&self, id: u64, segs: Seq<Seq<u8>>, last: Seq<u8>)
        ensures
            self.resolve_from(id, segs.push(last)) == match self.resolve_from(id, segs) {
                Ok(m) => self.resolve_from(m, seq![last]),
                Err(e) => Err(e),
            },
        decreases segs.len(),
    {
        if segs.len() > 0 {
            assert(segs.push(last).drop_first() =~= segs.drop_first().push(last));
            assert(segs.push(last)[0] == segs[0]);
            if self.contains(id) && self.node(id).spec_is_dir() {
                match self.child(id, segs[0]) {
                    Some(c) => self.lemma_resolve_push(c, segs.drop_first(), last),
                    None => {},
                }
            }
        } else {
            assert(segs.push(last) =~= seq![last]);
        }
    }

    /// A file cannot be traversed: when `path` leads to a file, the path
    /// extended by any further name fails with `Forbidden`, never with
    /// `NotFound`, whether or not such a name exists anywhere.
    pub proof fn lemma_no_traversal_through_file(&self, path: Seq<u8>, name: Seq<u8>)
        requires
            self.wf(),
            self.resolve(segments(path)) is Ok,
            !self.is_dir(self.resolve(segments(path))->Ok_0),
            name.len() > 0,
            !name.contains(SEPARATOR),
        ensures
            self.resolve(segments(path.push(SEPARATOR) + name)) == Err::<u64, FsError>(FsError::Forbidden),
    {
        let segs = segments(path);
        lemma_segments_append(path, name);
        self.lemma_resolve_push(ROOT_ID, segs, name);
        self.lemma_grows_refl();
        self.lemma_resolve_stable(self, ROOT_ID, segs);
    }

    /// Sibling names never collide: once a child is inserted under a name,
    /// a second insertion under that name is refused, and exactly one child
    /// of the parent bears it.
    pub proof fn lemma_no_sibling_collision(
        &self,
        after: &Tree,
        s1: u64,
        s2: u64,
        parent: u64,
        name: Seq<u8>,
        node: Node,
    )
        requires
            self.wf(),
            after.wf(),
            self.add_result(s1, parent, name, false) is Ok,
            self.inserted(after, self.add_result(s1, parent, name, false)->Ok_0, parent, name, node),
        ensures
            after.add_result(s2, parent, name, false) == Err::<u64, FsError>(FsError::AlreadyExists),
            exists|j: int|
                0 <= j < after.children(parent).len() && #[trigger] after.children(parent)[j].0 == name
                    && forall|j2: int|
                    0 <= j2 < after.children(parent).len() && #[trigger] after.children(parent)[j2].0
                        == name ==> j2 == j,
    {
        let cs = after.children(parent);
        let n = cs.len() - 1;
        assert(cs[n].0 == name);
        assert(after.contains(parent));
        assert forall|j2: int| 0 <= j2 < cs.len() && #[trigger] cs[j2].0 == name implies j2 == n by {
            assert(cs[j2].0 == cs[n].0);
        }
    }
}

/// Byte-wise equality of a name held in the tree and a name asked for.
fn vec_eq(a: &Vec<u8>, b: &[u8]) -> (r: bool)
    ensures
        r == (a@ == b@),
{
    if a.len() != b.len() {
        return false;
    }
    let mut i: usize = 0;
    while i < a.len()
        invariant
            a@.len() == b@.len(),
            i <= a@.len(),
            forall|j: int| 0 <= j < i ==> a@[j] == b@[j],
        decreases a@.len() - i,
    {
        if a[i] != b[i] {
            return false;
        }
        i = i + 1;
    }
    assert(a@ =~= b@);
    true
}

} // verus!
