//! The tree model: node records, structural child links, and the secondary
//! "selection" (membership) relation that lets a node be displayed under more
//! parents than the one that owns it.
//!
//! The model is rebuilt wholesale from a snapshot of the backing store. A
//! rebuild is atomic: either the whole replacement succeeds, or the prior
//! node and link maps are retained unchanged.

use vstd::prelude::*;
use crate::idmap::{IdMap, IdSet, keys_of, map_of};

verus! {

/// A work session: a start and an end, as seconds since the epoch.
#[derive(Clone, Copy, PartialEq, Eq, Structural, Debug)]
pub struct Session {
    pub start: i64,
    pub end: i64,
}

/// One task. Parentage is not stored here; it lives in the tree's relations.
pub struct Node {
    pub id: u64,
    pub name: String,
    pub due_date: Option<i64>,
    pub session: Option<Session>,
}

/// A failure of the backing store, surfaced unchanged by a rebuild.
#[derive(Debug)]
pub enum Error {
    StoreError(String),
}

/// One store read handed to a rebuild: a node with its ordered structural
/// child ids.
pub struct Record {
    pub id: u64,
    pub name: String,
    pub due_date: Option<i64>,
    pub session: Option<Session>,
    pub child_ids: Vec<u64>,
}

/// The node a record denotes.
pub open spec fn node_of(rec: Record) -> Node {
    Node { id: rec.id, name: rec.name, due_date: rec.due_date, session: rec.session }
}

/// The node map a snapshot denotes; a later record for an id wins.
pub open spec fn snap_nodes(s: Seq<Result<Record, Error>>) -> Map<u64, Node>
    decreases s.len(),
{
    if s.len() == 0 {
        Map::empty()
    } else {
        let m = snap_nodes(s.drop_last());
        match s.last() {
            Result::Ok(rec) => m.insert(rec.id, node_of(rec)),
            Result::Err(_) => m,
        }
    }
}

/// Every node a snapshot denotes carries its own key as its id.
proof fn lemma_snap_nodes_ids(s: Seq<Result<Record, Error>>)
    ensures
        forall|k: u64| #[trigger] snap_nodes(s).contains_key(k) ==> snap_nodes(s)[k].id == k,
    decreases s.len(),
{
    if s.len() > 0 {
        lemma_snap_nodes_ids(s.drop_last());
    }
}

/// The child-link map a snapshot denotes; a later record for an id wins.
pub open spec fn snap_links(s: Seq<Result<Record, Error>>) -> Map<u64, Vec<u64>>
    decreases s.len(),
{
    if s.len() == 0 {
        Map::empty()
    } else {
        let m = snap_links(s.drop_last());
        match s.last() {
            Result::Ok(rec) => m.insert(rec.id, rec.child_ids),
            Result::Err(_) => m,
        }
    }
}

/// The membership relation an entry list denotes, as a map to sets.
pub open spec fn selm_of(s: Seq<(u64, IdSet)>) -> Map<u64, Set<u64>>
    decreases s.len(),
{
    if s.len() == 0 {
        Map::empty()
    } else {
        selm_of(s.drop_last()).insert(s.last().0, s.last().1.s())
    }
}

/// The entry-list map and the set-valued map agree, key by key.
proof fn lemma_selm_of(s: Seq<(u64, IdSet)>)
    ensures
        selm_of(s).dom() == map_of(s).dom(),
        forall|k: u64| #[trigger] map_of(s).contains_key(k) ==> selm_of(s)[k] == map_of(s)[k].s(),
    decreases s.len(),
{
    if s.len() == 0 {
        assert(selm_of(s).dom() =~= map_of(s).dom());
    } else {
        lemma_selm_of(s.drop_last());
        assert(selm_of(s).dom() =~= map_of(s).dom());
    }
}

/// One membership flip: insert the pair when absent, remove it when present,
/// and drop the child's entry entirely once its set of parents is empty.
pub open spec fn spec_toggle(m: Map<u64, Set<u64>>, pid: u64, id: u64) -> Map<u64, Set<u64>> {
    if !m.contains_key(id) {
        m.insert(id, set![pid])
    } else if m[id].contains(pid) {
        if m[id] =~= set![pid] {
            m.remove(id)
        } else {
            m.insert(id, m[id].remove(pid))
        }
    } else {
        m.insert(id, m[id].insert(pid))
    }
}

/// No entry of the membership relation maps to an empty set.
pub open spec fn sel_no_empty(m: Map<u64, Set<u64>>) -> bool {
    forall|k: u64| #[trigger] m.contains_key(k) ==> !(m[k] =~= Set::<u64>::empty())
}

/// Toggling the same pair twice returns the membership relation to its prior
/// state; in particular the second call never leaves behind an empty entry.
pub proof fn lemma_toggle_involutive(m: Map<u64, Set<u64>>, pid: u64, id: u64)
    requires
        sel_no_empty(m),
    ensures
        spec_toggle(spec_toggle(m, pid, id), pid, id) == m,
        sel_no_empty(spec_toggle(m, pid, id)),
{
    if !m.contains_key(id) {
        let m1 = m.insert(id, set![pid]);
        assert(m1[id].contains(pid));
        assert(m1[id] =~= set![pid]);
        assert(spec_toggle(m1, pid, id) =~= m);
    } else if m[id].contains(pid) {
        if m[id] =~= set![pid] {
            let m1 = m.remove(id);
            assert(!m1.contains_key(id));
            assert(m1.insert(id, set![pid]) =~= m);
        } else {
            let m1 = m.insert(id, m[id].remove(pid));
            assert(!m1[id].contains(pid));
            assert(m1[id].insert(pid) =~= m[id]);
            assert(m1.insert(id, m1[id].insert(pid)) =~= m);
            assert(!(m[id].remove(pid) =~= Set::<u64>::empty())) by {
                let x = choose|x: u64| m[id].contains(x) && x != pid;
                assert(exists|x: u64| m[id].contains(x) && x != pid) by {
                    if forall|x: u64| #[trigger] m[id].contains(x) ==> x == pid {
                        assert(m[id] =~= set![pid]);
                    }
                }
            }
        }
    } else {
        let m1 = m.insert(id, m[id].insert(pid));
        assert(m1[id].contains(pid));
        assert(!(m[id] =~= Set::<u64>::empty()));
        let w = choose|w: u64| m[id].contains(w);
        assert(exists|w: u64| m[id].contains(w)) by {
            if forall|w: u64| !(#[trigger] m[id].contains(w)) {
                assert(m[id] =~= Set::<u64>::empty());
            }
        }
        assert(m[id].contains(w) && w != pid);
        assert(!(m1[id] =~= set![pid])) by {
            assert(m1[id].contains(w));
        }
        assert(m1[id].remove(pid) =~= m[id]);
        assert(m1.insert(id, m1[id].remove(pid)) =~= m);
        assert(!(m1[id] =~= Set::<u64>::empty()));
    }
}

/// The flattened sequence of selected (parent, child) pairs of an entry list,
/// in walk order: for every entry, one pair per recorded parent.
pub open spec fn sel_pair_seq(s: Seq<(u64, IdSet)>) -> Seq<(u64, u64)>
    decreases s.len(),
{
    if s.len() == 0 {
        Seq::empty()
    } else {
        sel_pair_seq(s.drop_last()) + s.last().1@.map_values(|p: u64| (p, s.last().0))
    }
}

/// The tree model: nodes, ordered structural child links, the membership
/// relation, and a transient highlight.
pub struct Tree {
    nodes: IdMap<Node>,
    links: IdMap<Vec<u64>>,
    selections: IdMap<IdSet>,
    pub highlighted: Option<u64>,
}

impl Tree {
    /// The stored nodes, as entries in insertion order.
    pub closed spec fn node_seq(&self) -> Seq<(u64, Node)> {
        self.nodes@
    }

    /// The stored child links, as entries in insertion order.
    pub closed spec fn link_seq(&self) -> Seq<(u64, Vec<u64>)> {
        self.links@
    }

    /// The membership entries, in insertion order.
    pub closed spec fn sel_seq(&self) -> Seq<(u64, IdSet)> {
        self.selections@
    }

    /// The transient highlight, as seen by contracts.
    pub closed spec fn highlight(&self) -> Option<u64> {
        self.highlighted
    }

    /// The map from id to node.
    pub open spec fn node_map(&self) -> Map<u64, Node> {
        map_of(self.node_seq())
    }

    /// The map from id to its ordered structural child ids.
    pub open spec fn link_map(&self) -> Map<u64, Vec<u64>> {
        map_of(self.link_seq())
    }

    /// The membership relation: child id to the set of parents it is also
    /// displayed under.
    pub open spec fn sel_map(&self) -> Map<u64, Set<u64>> {
        selm_of(self.sel_seq())
    }

    /// Container invariants: distinct keys everywhere, and no membership
    /// entry with an empty set.
    pub open spec fn wf(&self) -> bool {
        &&& keys_of(self.node_seq()).no_duplicates()
        &&& keys_of(self.link_seq()).no_duplicates()
        &&& keys_of(self.sel_seq()).no_duplicates()
        &&& forall|i: int|
            0 <= i < self.sel_seq().len() ==> (#[trigger] self.sel_seq()[i]).1.wf()
                && self.sel_seq()[i].1@.len() > 0
        &&& forall|k: u64|
            #[trigger] self.node_map().contains_key(k) ==> self.node_map()[k].id == k
    }

    /// The transient highlight, read.
    pub fn get_highlighted(&self) -> (h: Option<u64>)
        ensures
            h == self.highlight(),
    {
        self.highlighted
    }

    /// The transient highlight, written; everything else is untouched.
    pub fn set_highlighted(&mut self, h: Option<u64>)
        ensures
            final(self).highlight() == h,
            final(self).node_seq() == old(self).node_seq(),
            final(self).link_seq() == old(self).link_seq(),
            final(self).sel_seq() == old(self).sel_seq(),
            old(self).wf() ==> final(self).wf(),
    {
        self.highlighted = h;
    }

    /// Every id reachable through a child link exists in the node map, and
    /// every node has a (possibly empty) child list.
    pub open spec fn links_closed(&self) -> bool {
        &&& self.link_map().dom() == self.node_map().dom()
        &&& forall|p: u64|
            #[trigger] self.link_map().contains_key(p) ==> forall|i: int|
                0 <= i < self.link_map()[p]@.len() ==> self.node_map().contains_key(
                    #[trigger] self.link_map()[p]@[i],
                )
    }

    /// An empty tree: no nodes, no links, no selections, no highlight.
    pub fn new() -> (t: Tree)
        ensures
            t.wf(),
            t.node_seq() =~= Seq::<(u64, Node)>::empty(),
            t.link_seq() =~= Seq::<(u64, Vec<u64>)>::empty(),
            t.sel_seq() =~= Seq::<(u64, IdSet)>::empty(),
            t.node_map() =~= Map::<u64, Node>::empty(),
            t.link_map() =~= Map::<u64, Vec<u64>>::empty(),
            t.sel_map() =~= Map::<u64, Set<u64>>::empty(),
            t.highlight() is None,
    {
        Tree {
            nodes: IdMap::new(),
            links: IdMap::new(),
            selections: IdMap::new(),
            highlighted: None,
        }
    }

    /// Build a tree from a store snapshot; on a failed read the error is
    /// surfaced and no tree is produced.
    pub fn from_store(snapshot: Vec<Result<Record, Error>>) -> (r: Result<Tree, Error>)
        ensures
            (forall|i: int| 0 <= i < snapshot@.len() ==> snapshot@[i] is Ok) ==> r is Ok,
            r is Ok ==> {
                let t = r->Ok_0;
                &&& t.wf()
                &&& t.node_map() == snap_nodes(snapshot@)
                &&& t.link_map() == snap_links(snapshot@)
                &&& t.sel_seq() =~= Seq::<(u64, IdSet)>::empty()
                &&& t.highlight() is None
            },
            r is Err ==> exists|i: int|
                0 <= i < snapshot@.len() && #[trigger] (snapshot@[i]) is Err && (forall|j: int|
                    0 <= j < i ==> snapshot@[j] is Ok) && r->Err_0 == snapshot@[i]->Err_0,
    {
        let mut tree = Tree::new();
        match tree.rebuild(snapshot) {
            Ok(()) => Ok(tree),
            Err(e) => Err(e),
        }
    }

    /// Replace the node and link maps from a snapshot. When every read
    /// succeeded, the maps afterwards are exactly what the snapshot denotes;
    /// when any read failed, the first error is returned and the prior maps
    /// are retained unchanged. Selections and the highlight survive either
    /// way.
    pub fn rebuild(&mut self, snapshot: Vec<Result<Record, Error>>) -> (r: Result<(), Error>)
        requires
            old(self).wf(),
        ensures
            final(self).wf(),
            final(self).sel_seq() == old(self).sel_seq(),
            final(self).highlight() == old(self).highlight(),
            (forall|i: int| 0 <= i < snapshot@.len() ==> snapshot@[i] is Ok) ==> {
                &&& r is Ok
                &&& final(self).node_map() == snap_nodes(snapshot@)
                &&& final(self).link_map() == snap_links(snapshot@)
            },
            r is Err ==> {
                &&& final(self).node_seq() == old(self).node_seq()
                &&& final(self).link_seq() == old(self).link_seq()
                &&& exists|i: int|
                    0 <= i < snapshot@.len() && #[trigger] (snapshot@[i]) is Err && (forall|j: int| 0 <= j < i ==> snapshot@[j] is Ok) && r->Err_0 == snapshot@[i]->Err_0
            },
            r is Ok ==> (forall|i: int| 0 <= i < snapshot@.len() ==> snapshot@[i] is Ok),
    {
        let ghost snap0 = snapshot@;
        let mut rest = snapshot;
        let mut new_nodes: IdMap<Node> = IdMap::new();
        let mut new_links: IdMap<Vec<u64>> = IdMap::new();
        let ghost mut k: int = 0;
        proof {
            assert(snap0.take(0) =~= Seq::<Result<Record, Error>>::empty());
            assert(rest@ =~= snap0.skip(0));
        }
        while rest.len() > 0
            invariant
                *self == *old(self),
                self.wf(),
                snap0 == snapshot@,
                0 <= k <= snap0.len(),
                rest@ == snap0.skip(k),
                forall|j: int| 0 <= j < k ==> snap0[j] is Ok,
                new_nodes.wf(),
                new_links.wf(),
                new_nodes.m() == snap_nodes(snap0.take(k)),
                new_links.m() == snap_links(snap0.take(k)),
            decreases rest@.len(),
        {
            proof {
                assert(rest@[0] == snap0[k]);
            }
            let entry = rest.remove(0);
            match entry {
                Ok(rec) => {
                    let ghost grec = rec;
                    let Record { id, name, due_date, session, child_ids } = rec;
                    new_nodes.insert(id, Node { id, name, due_date, session });
                    new_links.insert(id, child_ids);
                    proof {
                        k = k + 1;
                        assert(rest@ =~= snap0.skip(k));
                        assert(snap0.take(k).drop_last() =~= snap0.take(k - 1));
                        assert(snap0.take(k).last() == snap0[k - 1]);
                        assert(snap0[k - 1] == Result::<Record, Error>::Ok(grec));
                        assert(Node { id, name, due_date, session } == node_of(grec));
                        assert(new_nodes.m() == snap_nodes(snap0.take(k)));
                        assert(new_links.m() == snap_links(snap0.take(k)));
                    }
                },
                Err(e) => {
                    proof {
                        assert(snap0[k] is Err);
                        assert(e == snap0[k]->Err_0);
                    }
                    return Err(e);
                },
            }
        }
        proof {
            assert(snap0.take(k) =~= snap0);
            lemma_snap_nodes_ids(snap0);
        }
        self.nodes = new_nodes;
        self.links = new_links;
        Ok(())
    }

    /// Flip the membership of `id` under `pid`. Purely in-memory; never
    /// fails; nodes and links are untouched.
    pub fn toggle(&mut self, pid: u64, id: u64)
        requires
            old(self).wf(),
        ensures
            final(self).wf(),
            final(self).sel_map() == spec_toggle(old(self).sel_map(), pid, id),
            final(self).node_seq() == old(self).node_seq(),
            final(self).link_seq() == old(self).link_seq(),
            final(self).highlight() == old(self).highlight(),
    {
        proof {
            lemma_selm_of(self.sel_seq());
        }
        match self.selections.take(id) {
            Some(mut pids) => {
                proof {
                    assert(exists|i: int|
                        0 <= i < old(self).sel_seq().len() && old(self).sel_seq()[i].0 == id
                            && self.sel_seq() =~= old(self).sel_seq().remove(i));
                    let i = choose|i: int|
                        0 <= i < old(self).sel_seq().len() && old(self).sel_seq()[i].0 == id
                            && self.sel_seq() =~= old(self).sel_seq().remove(i);
                    crate::idmap::lemma_map_of_index(old(self).sel_seq(), i);
                    assert(old(self).sel_seq()[i].1.wf());
                    assert(pids == old(self).sel_seq()[i].1);
                    assert(pids.wf());
                    assert(pids@.len() > 0);
                    assert forall|j: int| 0 <= j < self.sel_seq().len() implies (
                    #[trigger] self.sel_seq()[j]).1.wf() && self.sel_seq()[j].1@.len() > 0 by {
                        let j0 = if j < i {
                            j
                        } else {
                            j + 1
                        };
                        assert(self.sel_seq()[j] == old(self).sel_seq()[j0]);
                    }
                    lemma_selm_of(self.sel_seq());
                }
                if pids.contains(pid) {
                    pids.remove(pid);
                    if pids.len() > 0 {
                        self.selections.insert(id, pids);
                        proof {
                            assert(self.sel_seq().drop_last().len() == self.sel_seq().len() - 1);
                            lemma_selm_of(self.sel_seq());
                            assert(self.sel_map() =~= spec_toggle(
                                old(self).sel_map(),
                                pid,
                                id,
                            )) by {
                                assert(!(old(self).sel_map()[id] =~= set![pid])) by {
                                    assert(pids@.len() > 0);
                                    assert(pids.s().contains(pids@[0]));
                                    assert(old(self).sel_map()[id].contains(pids@[0]));
                                    assert(pids@[0] != pid);
                                }
                            }
                            assert forall|j: int| 0 <= j < self.sel_seq().len() implies (
                            #[trigger] self.sel_seq()[j]).1.wf() && self.sel_seq()[j].1@.len()
                                > 0 by {
                                if j < self.sel_seq().len() - 1 {
                                    assert(self.sel_seq()[j] == self.sel_seq().drop_last()[j]);
                                }
                            }
                        }
                    } else {
                        proof {
                            assert(pids.s() =~= Set::<u64>::empty());
                            assert(old(self).sel_map()[id] =~= set![pid]);
                            assert(self.sel_map() =~= spec_toggle(old(self).sel_map(), pid, id));
                        }
                    }
                } else {
                    pids.insert(pid);
                    self.selections.insert(id, pids);
                    proof {
                        assert(self.sel_seq().drop_last().len() == self.sel_seq().len() - 1);
                        lemma_selm_of(self.sel_seq());
                        assert(self.sel_map() =~= spec_toggle(old(self).sel_map(), pid, id));
                        assert forall|j: int| 0 <= j < self.sel_seq().len() implies (
                        #[trigger] self.sel_seq()[j]).1.wf() && self.sel_seq()[j].1@.len() > 0 by {
                            if j < self.sel_seq().len() - 1 {
                                assert(self.sel_seq()[j] == self.sel_seq().drop_last()[j]);
                            }
                        }
                    }
                }
            },
            None => {
                let fresh = IdSet::single(pid);
                self.selections.insert(id, fresh);
                proof {
                    assert(self.sel_seq().drop_last() =~= old(self).sel_seq());
                    lemma_selm_of(self.sel_seq());
                    assert(self.sel_map() =~= spec_toggle(old(self).sel_map(), pid, id));
                    assert forall|j: int| 0 <= j < self.sel_seq().len() implies (
                    #[trigger] self.sel_seq()[j]).1.wf() && self.sel_seq()[j].1@.len() > 0 by {
                        if j < self.sel_seq().len() - 1 {
                            assert(self.sel_seq()[j] == old(self).sel_seq()[j]);
                        }
                    }
                }
            },
        }
    }

    /// The node for an id. Callers must only query ids obtained from the
    /// tree itself; asking for an absent id is an invariant violation.
    pub fn node_at(&self, id: u64) -> (n: &Node)
        requires
            self.wf(),
            self.node_map().contains_key(id),
        ensures
            *n == self.node_map()[id],
    {
        self.nodes.get(id).unwrap()
    }

    /// Whether `id` has a child-link entry (every id of the tree does once
    /// the link relation is closed).
    pub fn has_node(&self, id: u64) -> (b: bool)
        requires
            self.wf(),
        ensures
            b == self.node_map().contains_key(id),
    {
        self.nodes.contains_key(id)
    }

    /// The ordered structural children of `id`, resolved to their nodes.
    pub fn children(&self, id: u64) -> (r: Vec<&Node>)
        requires
            self.wf(),
            self.links_closed(),
            self.link_map().contains_key(id),
        ensures
            r@.len() == self.link_map()[id]@.len(),
            forall|i: int|
                0 <= i < r@.len() ==> *(#[trigger] r@[i]) == self.node_map()[self.link_map()[id]@[i]],
    {
        let ids: &Vec<u64> = self.links.get(id).unwrap();
        let mut out: Vec<&Node> = Vec::new();
        let mut i: usize = 0;
        while i < ids.len()
            invariant
                self.wf(),
                self.links_closed(),
                self.link_map().contains_key(id),
                *ids == self.link_map()[id],
                i <= ids@.len(),
                out@.len() == i,
                forall|j: int|
                    0 <= j < i ==> *(#[trigger] out@[j]) == self.node_map()[self.link_map()[id]@[j]],
            decreases ids@.len() - i,
        {
            let cid = ids[i];
            let n = self.nodes.get(cid).unwrap();
            out.push(n);
            i += 1;
        }
        out
    }

    /// Whether `id` is currently a member (selected) under `pid`.
    pub fn is_selected(&self, pid: u64, id: u64) -> (b: bool)
        requires
            self.wf(),
        ensures
            b == (self.sel_map().contains_key(id) && self.sel_map()[id].contains(pid)),
    {
        proof {
            lemma_selm_of(self.sel_seq());
        }
        match self.selections.get(id) {
            Some(pids) => pids.contains(pid),
            None => false,
        }
    }

    /// A walk over all currently selected (parent, child) pairs. A tree with
    /// zero selections yields the empty walk, not an error.
    pub fn selections(&self) -> (r: Selections)
        requires
            self.wf(),
        ensures
            r.remaining() == sel_pair_seq(self.sel_seq()),
            r is Empty <==> self.sel_seq().len() == 0,
    {
        if self.selections.is_empty() {
            proof {
                assert(sel_pair_seq(self.sel_seq()) =~= Seq::<(u64, u64)>::empty());
            }
            Selections::Empty
        } else {
            let mut pairs: Vec<(u64, u64)> = Vec::new();
            let n = self.selections.len();
            let mut i: usize = 0;
            proof {
                assert(self.sel_seq().take(0) =~= Seq::<(u64, IdSet)>::empty());
            }
            while i < n
                invariant
                    self.wf(),
                    n == self.sel_seq().len(),
                    i <= n,
                    pairs@ == sel_pair_seq(self.sel_seq().take(i as int)),
                decreases n - i,
            {
                let entry_id = self.selections.key_at(i);
                let pids = self.selections.val_at(i);
                let m = pids.len();
                let mut j: usize = 0;
                proof {
                    assert(self.sel_seq().take(i + 1).drop_last() =~= self.sel_seq().take(
                        i as int,
                    ));
                    assert(self.sel_seq().take(i + 1).last() == self.sel_seq()[i as int]);
                }
                while j < m
                    invariant
                        self.wf(),
                        n == self.sel_seq().len(),
                        i < n,
                        m == pids@.len(),
                        j <= m,
                        entry_id == self.sel_seq()[i as int].0,
                        *pids == self.sel_seq()[i as int].1,
                        pairs@ == sel_pair_seq(self.sel_seq().take(i as int)) + pids@.take(
                            j as int,
                        ).map_values(|p: u64| (p, self.sel_seq()[i as int].0)),
                    decreases m - j,
                {
                    let p = pids.item_at(j);
                    pairs.push((p, entry_id));
                    proof {
                        assert(pids@.take(j + 1).drop_last() =~= pids@.take(j as int));
                        assert(pids@.take(j + 1).map_values(
                            |p: u64| (p, self.sel_seq()[i as int].0),
                        ) =~= pids@.take(j as int).map_values(
                            |p: u64| (p, self.sel_seq()[i as int].0),
                        ).push((pids@[j as int], self.sel_seq()[i as int].0)));
                    }
                    j += 1;
                }
                proof {
                    assert(pids@.take(m as int) =~= pids@);
                    assert(sel_pair_seq(self.sel_seq().take(i + 1)) == sel_pair_seq(
                        self.sel_seq().take(i as int),
                    ) + self.sel_seq()[i as int].1@.map_values(
                        |p: u64| (p, self.sel_seq()[i as int].0),
                    ));
                }
                i += 1;
            }
            proof {
                assert(self.sel_seq().take(n as int) =~= self.sel_seq());
            }
            let r = Selections::Actual { pairs, pos: 0 };
            proof {
                assert(r.remaining() =~= sel_pair_seq(self.sel_seq()));
            }
            r
        }
    }

    /// A walk over the distinct ids that have at least one selection. A tree
    /// with zero selections yields the empty walk, not an error.
    pub fn selection_ids(&self) -> (r: SelectionIds)
        requires
            self.wf(),
        ensures
            r.remaining() == keys_of(self.sel_seq()),
            r is Empty <==> self.sel_seq().len() == 0,
    {
        if self.selections.is_empty() {
            proof {
                assert(keys_of(self.sel_seq()) =~= Seq::<u64>::empty());
            }
            SelectionIds::Empty
        } else {
            let mut ids: Vec<u64> = Vec::new();
            let n = self.selections.len();
            let mut i: usize = 0;
            while i < n
                invariant
                    n == self.sel_seq().len(),
                    i <= n,
                    ids@ =~= keys_of(self.sel_seq()).take(i as int),
                decreases n - i,
            {
                let entry_id = self.selections.key_at(i);
                ids.push(entry_id);
                proof {
                    assert(ids@ =~= keys_of(self.sel_seq()).take(i + 1));
                }
                i += 1;
            }
            proof {
                assert(keys_of(self.sel_seq()).take(n as int) =~= keys_of(
                    self.sel_seq(),
                ));
            }
            let r = SelectionIds::Actual { ids, pos: 0 };
            proof {
                assert(r.remaining() =~= keys_of(self.sel_seq()));
            }
            r
        }
    }
}

/// A walk over selected (parent, child) pairs; `Empty` stands for a tree
/// with no selections at all.
pub enum Selections {
    Actual { pairs: Vec<(u64, u64)>, pos: usize },
    Empty,
}

impl Selections {
    /// The pairs this walk has yet to yield.
    pub open spec fn remaining(&self) -> Seq<(u64, u64)> {
        match self {
            Selections::Actual { pairs, pos } => if *pos <= pairs@.len() {
                pairs@.skip(*pos as int)
            } else {
                Seq::empty()
            },
            Selections::Empty => Seq::empty(),
        }
    }

    /// Yield the next pair, front to back.
    pub fn next(&mut self) -> (r: Option<(u64, u64)>)
        ensures
            old(self).remaining().len() == 0 ==> r is None && final(self).remaining() == old(self).remaining(),
            old(self).remaining().len() > 0 ==> r == Some(old(self).remaining()[0])
                && final(self).remaining() == old(self).remaining().skip(1),
    {
        let mut tmp = Selections::Empty;
        core::mem::swap(self, &mut tmp);
        match tmp {
            Selections::Empty => None,
            Selections::Actual { pairs, pos } => {
                if pos < pairs.len() {
                    let p = pairs[pos];
                    *self = Selections::Actual { pairs, pos: pos + 1 };
                    proof {
                        assert(self.remaining() =~= old(self).remaining().skip(1));
                    }
                    Some(p)
                } else {
                    *self = Selections::Actual { pairs, pos };
                    None
                }
            },
        }
    }
}

/// A walk over the distinct selected child ids; `Empty` stands for a tree
/// with no selections at all.
pub enum SelectionIds {
    Actual { ids: Vec<u64>, pos: usize },
    Empty,
}

impl SelectionIds {
    /// The ids this walk has yet to yield.
    pub open spec fn remaining(&self) -> Seq<u64> {
        match self {
            SelectionIds::Actual { ids, pos } => if *pos <= ids@.len() {
                ids@.skip(*pos as int)
            } else {
                Seq::empty()
            },
            SelectionIds::Empty => Seq::empty(),
        }
    }

    /// Yield the next id, front to back.
    pub fn next(&mut self) -> (r: Option<u64>)
        ensures
            old(self).remaining().len() == 0 ==> r is None && final(self).remaining() == old(self).remaining(),
            old(self).remaining().len() > 0 ==> r == Some(old(self).remaining()[0])
                && final(self).remaining() == old(self).remaining().skip(1),
    {
        let mut tmp = SelectionIds::Empty;
        core::mem::swap(self, &mut tmp);
        match tmp {
            SelectionIds::Empty => None,
            SelectionIds::Actual { ids, pos } => {
                if pos < ids.len() {
                    let x = ids[pos];
                    *self = SelectionIds::Actual { ids, pos: pos + 1 };
                    proof {
                        assert(self.remaining() =~= old(self).remaining().skip(1));
                    }
                    Some(x)
                } else {
                    *self = SelectionIds::Actual { ids, pos };
                    None
                }
            },
        }
    }
}

} // verus!
