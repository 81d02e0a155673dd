//! A bidirectional node/link container: the graph store.
//!
//! A [`Graph`] owns a collection of nodes, each holding a payload and a
//! derived adjacency set, and a collection of links, each keyed by the
//! unordered pair of its two endpoint identifiers and holding a payload.
//! The central invariant, stated by [`Graph::wf`] and exported by
//! [`lemma_adjacency_consistency`], is that the adjacency sets always agree
//! with the link collection: a node `m` is recorded as a neighbour of `n`
//! exactly when a link keyed by the unordered pair of `n` and `m` exists.
//!
//! Identifiers are minted by an embedded [`IdContext`] whose family is the
//! node payload type; every identifier occurring in the graph lies below the
//! context's counter, so freshly minted node identifiers never collide.

use vstd::prelude::*;
use crate::assoc::assoc_map;
use crate::assoc::has_key;
use crate::assoc::keys_unique;
use crate::assoc::lemma_assoc_map_dom;
use crate::assoc::lemma_assoc_map_index;
use crate::assoc::lemma_assoc_map_len;
use crate::assoc::lemma_assoc_map_push;
use crate::assoc::lemma_assoc_map_remove;
use crate::assoc::lemma_has_key_push;
use crate::assoc::lemma_has_key_remove;
use crate::assoc::lemma_keys_unique_push;
use crate::assoc::lemma_keys_unique_remove;
use crate::ids::Id;
use crate::ids::IdContext;
use crate::uord::UOrd;

verus! {

/// An unordered pair of node identifiers, the key of a link.
pub type IdPair<F> = UOrd<Id<F>>;

/// The unordered pair of two raw identifiers, as the sorted tuple.
pub open spec fn norm_pair(a: u64, b: u64) -> (u64, u64) {
    if a <= b {
        (a, b)
    } else {
        (b, a)
    }
}

/// A node's stored payload together with its derived adjacency list.
struct NodeEntry<Node> {
    value: Node,
    neighbors: Vec<u64>,
}

/// An undirected graph store: nodes addressed by opaque identifiers, links
/// addressed by unordered pairs of node identifiers, both holding arbitrary
/// payloads.
pub struct Graph<Node, Link> {
    id_context: IdContext<Node>,
    nodes: Vec<(u64, NodeEntry<Node>)>,
    links: Vec<((u64, u64), Link)>,
}

impl<Node, Link> Graph<Node, Link> {
    /// The node entries projected to (identifier, payload) pairs.
    spec fn node_pairs(self) -> Seq<(u64, Node)> {
        self.nodes@.map_values(|e: (u64, NodeEntry<Node>)| (e.0, e.1.value))
    }

    /// The node entries projected to (identifier, adjacency set) pairs.
    spec fn neigh_pairs(self) -> Seq<(u64, Set<u64>)> {
        self.nodes@.map_values(|e: (u64, NodeEntry<Node>)| (e.0, e.1.neighbors@.to_set()))
    }

    /// The stored nodes: a map from raw identifier to node payload.
    pub closed spec fn spec_nodes(self) -> Map<u64, Node> {
        assoc_map(self.node_pairs())
    }

    /// The derived adjacency sets: a map from raw identifier to the set of
    /// raw identifiers of neighbouring nodes.
    pub closed spec fn spec_neighbors(self) -> Map<u64, Set<u64>> {
        assoc_map(self.neigh_pairs())
    }

    /// The stored links: a map from sorted raw identifier pair to link
    /// payload.
    pub closed spec fn spec_links(self) -> Map<(u64, u64), Link> {
        assoc_map(self.links@)
    }

    /// The raw value the next minted node identifier will have.
    pub closed spec fn next_raw(self) -> u64 {
        self.id_context@
    }

    /// No two node entries share an identifier.
    spec fn nodes_distinct(self) -> bool {
        forall|i: int, j: int| 0 <= i < j < self.nodes@.len()
            ==> self.nodes@[i].0 != self.nodes@[j].0
    }

    /// Link keys are sorted, distinct pairs of distinct identifiers.
    spec fn links_distinct(self) -> bool {
        &&& keys_unique(self.links@)
        &&& forall|i: int| 0 <= i < self.links@.len()
            ==> (#[trigger] self.links@[i].0).0 < self.links@[i].0.1
    }

    /// Adjacency lists repeat no identifier.
    spec fn neighbors_distinct(self) -> bool {
        forall|i: int| 0 <= i < self.nodes@.len()
            ==> (#[trigger] self.nodes@[i].1.neighbors@).no_duplicates()
    }

    /// The central consistency property: a node's adjacency list holds `m`
    /// exactly when a link keyed by the unordered pair of the node's
    /// identifier and `m` exists.
    spec fn adjacency_consistent(self) -> bool {
        forall|i: int, m: u64| 0 <= i < self.nodes@.len()
            ==> ((#[trigger] self.nodes@[i].1.neighbors@.contains(m))
                <==> has_key(self.links@, norm_pair(self.nodes@[i].0, m)))
    }

    /// Every identifier occurring in the graph lies below the embedded
    /// context's counter, so freshly minted identifiers are never in use.
    spec fn ids_below_context(self) -> bool {
        &&& forall|i: int| 0 <= i < self.nodes@.len()
            ==> (#[trigger] self.nodes@[i].0) < self.id_context@
        &&& forall|i: int| 0 <= i < self.links@.len()
            ==> (#[trigger] self.links@[i].0).0 < self.id_context@
                && self.links@[i].0.1 < self.id_context@
    }

    /// Well-formedness of the graph store. Constructors establish it and
    /// every operation preserves it, so it holds of every reachable graph.
    pub closed spec fn wf(self) -> bool {
        &&& self.nodes_distinct()
        &&& self.links_distinct()
        &&& self.neighbors_distinct()
        &&& self.adjacency_consistent()
        &&& self.ids_below_context()
    }

    /// Some node entry has the given identifier as its key.
    spec fn node_has_key(self, k: u64) -> bool {
        exists|i: int| 0 <= i < self.nodes@.len() && self.nodes@[i].0 == k
    }

    /// The projections share the node entries' keys and lengths.
    proof fn lemma_projections(self)
        ensures
            self.node_pairs().len() == self.nodes@.len(),
            self.neigh_pairs().len() == self.nodes@.len(),
            forall|i: int| 0 <= i < self.nodes@.len()
                ==> (#[trigger] self.node_pairs()[i])
                    == (self.nodes@[i].0, self.nodes@[i].1.value),
            forall|i: int| 0 <= i < self.nodes@.len()
                ==> (#[trigger] self.neigh_pairs()[i])
                    == (self.nodes@[i].0, self.nodes@[i].1.neighbors@.to_set()),
            self.nodes_distinct() ==> keys_unique(self.node_pairs()),
            self.nodes_distinct() ==> keys_unique(self.neigh_pairs()),
            forall|k: u64| #[trigger] has_key(self.node_pairs(), k) <==> self.node_has_key(k),
            forall|k: u64| #[trigger] has_key(self.neigh_pairs(), k) <==> self.node_has_key(k),
    {
        assert forall|k: u64| #[trigger] has_key(self.node_pairs(), k)
            implies self.node_has_key(k) by {
            let i = choose|i: int| 0 <= i < self.node_pairs().len()
                && self.node_pairs()[i].0 == k;
            assert(self.nodes@[i].0 == k);
        }
        assert forall|k: u64| self.node_has_key(k)
            implies #[trigger] has_key(self.node_pairs(), k) by {
            let i = choose|i: int| 0 <= i < self.nodes@.len() && self.nodes@[i].0 == k;
            assert(self.node_pairs()[i].0 == k);
        }
        assert forall|k: u64| #[trigger] has_key(self.neigh_pairs(), k)
            implies self.node_has_key(k) by {
            let i = choose|i: int| 0 <= i < self.neigh_pairs().len()
                && self.neigh_pairs()[i].0 == k;
            assert(self.nodes@[i].0 == k);
        }
        assert forall|k: u64| self.node_has_key(k)
            implies #[trigger] has_key(self.neigh_pairs(), k) by {
            let i = choose|i: int| 0 <= i < self.nodes@.len() && self.nodes@[i].0 == k;
            assert(self.neigh_pairs()[i].0 == k);
        }
    }

    /// Creates an empty graph.
    pub fn new() -> (r: Self)
        ensures
            r.wf(),
            r.spec_nodes() == Map::<u64, Node>::empty(),
            r.spec_neighbors() == Map::<u64, Set<u64>>::empty(),
            r.spec_links() == Map::<(u64, u64), Link>::empty(),
            r.next_raw() == 0,
    {
        let r = Graph {
            id_context: IdContext::new(),
            nodes: Vec::new(),
            links: Vec::new(),
        };
        proof {
            assert(r.node_pairs() =~= Seq::<(u64, Node)>::empty());
            assert(r.neigh_pairs() =~= Seq::<(u64, Set<u64>)>::empty());
        }
        r
    }

    /// The index of the node entry with the given key, if any.
    fn find_node(&self, key: u64) -> (r: Option<usize>)
        ensures
            match r {
                Some(i) => i < self.nodes@.len() && self.nodes@[i as int].0 == key,
                None => forall|i: int| 0 <= i < self.nodes@.len() ==> self.nodes@[i].0 != key,
            },
    {
        let mut i: usize = 0;
        while i < self.nodes.len()
            invariant
                i <= self.nodes@.len(),
                forall|p: int| 0 <= p < i ==> self.nodes@[p].0 != key,
            decreases self.nodes@.len() - i,
        {
            if self.nodes[i].0 == key {
                return Some(i);
            }
            i = i + 1;
        }
        None
    }

    /// The index of the link entry with the given sorted key, if any.
    fn find_link(&self, key: (u64, u64)) -> (r: Option<usize>)
        ensures
            match r {
                Some(i) => i < self.links@.len() && self.links@[i as int].0 == key,
                None => !has_key(self.links@, key),
            },
    {
        let mut i: usize = 0;
        while i < self.links.len()
            invariant
                i <= self.links@.len(),
                forall|p: int| 0 <= p < i ==> self.links@[p].0 != key,
            decreases self.links@.len() - i,
        {
            if self.links[i].0.0 == key.0 && self.links[i].0.1 == key.1 {
                return Some(i);
            }
            i = i + 1;
        }
        None
    }

    /// Returns true if a node exists with the given identifier.
    pub fn contains_node(&self, id: Id<Node>) -> (r: bool)
        requires
            self.wf(),
        ensures
            r == self.spec_nodes().contains_key(id@),
    {
        proof {
            self.lemma_projections();
            lemma_assoc_map_dom(self.node_pairs());
        }
        self.find_node(id.into_raw()).is_some()
    }

    /// Returns true if the given nodes are linked.
    pub fn contains_link(&self, nodes: (Id<Node>, Id<Node>)) -> (r: bool)
        requires
            self.wf(),
        ensures
            r == self.spec_links().contains_key(norm_pair(nodes.0@, nodes.1@)),
    {
        proof {
            lemma_assoc_map_dom(self.links@);
        }
        let (a, b) = (nodes.0.into_raw(), nodes.1.into_raw());
        let key = if a <= b { (a, b) } else { (b, a) };
        self.find_link(key).is_some()
    }

    /// The number of nodes in this graph.
    pub fn nodes_count(&self) -> (r: usize)
        requires
            self.wf(),
        ensures
            r == self.spec_nodes().dom().len(),
    {
        proof {
            self.lemma_projections();
            lemma_assoc_map_len(self.node_pairs());
        }
        self.nodes.len()
    }

    /// The number of links in this graph.
    pub fn links_count(&self) -> (r: usize)
        requires
            self.wf(),
        ensures
            r == self.spec_links().dom().len(),
    {
        proof {
            lemma_assoc_map_len(self.links@);
        }
        self.links.len()
    }

    /// A reference to the payload of the node with the given identifier, if
    /// it exists.
    pub fn get_node_value(&self, id: Id<Node>) -> (r: Option<&Node>)
        requires
            self.wf(),
        ensures
            match r {
                Some(v) => self.spec_nodes().contains_key(id@)
                    && *v == self.spec_nodes()[id@],
                None => !self.spec_nodes().contains_key(id@),
            },
    {
        proof {
            self.lemma_projections();
            lemma_assoc_map_dom(self.node_pairs());
        }
        match self.find_node(id.into_raw()) {
            Some(i) => {
                proof {
                    lemma_assoc_map_index(self.node_pairs(), i as int);
                }
                Some(&self.nodes[i].1.value)
            }
            None => None,
        }
    }

    /// Adds a new node (with no links) to the graph, placing the given value
    /// inside it, and returns its freshly minted identifier. The identifier
    /// is never one the graph already uses.
    pub fn add_node(&mut self, value: Node) -> (r: Id<Node>)
        requires
            old(self).wf(),
            old(self).next_raw() < u64::MAX,
        ensures
            final(self).wf(),
            r@ == old(self).next_raw(),
            !old(self).spec_nodes().contains_key(r@),
            final(self).spec_nodes() == old(self).spec_nodes().insert(r@, value),
            final(self).spec_neighbors()
                == old(self).spec_neighbors().insert(r@, Set::<u64>::empty()),
            final(self).spec_links() == old(self).spec_links(),
            final(self).next_raw() == old(self).next_raw() + 1,
    {
        proof {
            old(self).lemma_projections();
            lemma_assoc_map_dom(old(self).node_pairs());
        }
        let mut context = self.id_context.clone();
        let id = context.next_id();
        self.id_context = context;
        let key = id.into_raw();
        self.nodes.push((key, NodeEntry { value, neighbors: Vec::new() }));
        proof {
            self.lemma_projections();
            assert(self.node_pairs() =~= old(self).node_pairs().push((key, value)));
            assert(Seq::<u64>::empty().to_set() =~= Set::<u64>::empty());
            assert(self.neigh_pairs()
                =~= old(self).neigh_pairs().push((key, Set::<u64>::empty())));
            lemma_assoc_map_push(old(self).node_pairs(), key, value);
            lemma_assoc_map_push(old(self).neigh_pairs(), key, Set::<u64>::empty());
            assert(!old(self).node_has_key(key));
            assert forall|m: u64| !has_key(self.links@, norm_pair(key, m)) by {
                if has_key(self.links@, norm_pair(key, m)) {
                    let i = choose|i: int| 0 <= i < self.links@.len()
                        && self.links@[i].0 == norm_pair(key, m);
                    assert(self.links@[i].0.0 < key && self.links@[i].0.1 < key);
                }
            }
            assert(self.wf()) by {
                assert forall|i: int, m: u64| 0 <= i < self.nodes@.len()
                    implies ((#[trigger] self.nodes@[i].1.neighbors@.contains(m))
                        <==> has_key(self.links@, norm_pair(self.nodes@[i].0, m))) by {
                    if i < self.nodes@.len() - 1 {
                        assert(self.nodes@[i] == old(self).nodes@[i]);
                        assert(old(self).nodes@[i].1.neighbors@.contains(m)
                            <==> has_key(old(self).links@,
                                norm_pair(old(self).nodes@[i].0, m)));
                    } else {
                        assert(!self.nodes@[i].1.neighbors@.contains(m));
                        assert(!has_key(self.links@, norm_pair(key, m)));
                    }
                }
            }
        }
        id
    }

    /// What adding a link between nodes `a` and `b` guarantees: the link map
    /// gains (or re-binds) the unordered key; on a fresh link each endpoint's
    /// adjacency set gains the other, and on a re-link the previous payload
    /// comes back with adjacency untouched.
    pub open spec fn link_added(
        pre: Self,
        post: Self,
        a: u64,
        b: u64,
        value: Link,
        r: Option<Link>,
    ) -> bool {
        &&& post.spec_nodes() == pre.spec_nodes()
        &&& post.next_raw() == pre.next_raw()
        &&& post.spec_links() == pre.spec_links().insert(norm_pair(a, b), value)
        &&& match r {
            Some(prev) => pre.spec_links().contains_key(norm_pair(a, b))
                && prev == pre.spec_links()[norm_pair(a, b)]
                && post.spec_neighbors() == pre.spec_neighbors(),
            None => !pre.spec_links().contains_key(norm_pair(a, b))
                && post.spec_neighbors() == pre.spec_neighbors()
                    .insert(a, pre.spec_neighbors()[a].insert(b))
                    .insert(b, pre.spec_neighbors()[b].insert(a)),
        }
    }

    /// Adds a new link between the two given nodes, placing the given value
    /// inside it. If the link already existed, replaces and returns its
    /// previous value without touching adjacency; otherwise records each
    /// endpoint in the other's adjacency set. Linking a node to itself or
    /// linking identifiers without a node entry is a caller error, excluded
    /// by precondition.
    pub fn add_link(&mut self, value: Link, nodes: (Id<Node>, Id<Node>)) -> (r: Option<Link>)
        requires
            old(self).wf(),
            nodes.0@ != nodes.1@,
            old(self).spec_nodes().contains_key(nodes.0@),
            old(self).spec_nodes().contains_key(nodes.1@),
        ensures
            final(self).wf(),
            Self::link_added(*old(self), *final(self), nodes.0@, nodes.1@, value, r),
    {
        proof {
            old(self).lemma_projections();
            lemma_assoc_map_dom(old(self).node_pairs());
            lemma_assoc_map_dom(old(self).links@);
        }
        let (ra, rb) = (nodes.0.into_raw(), nodes.1.into_raw());
        let key = if ra <= rb { (ra, rb) } else { (rb, ra) };
        match self.find_link(key) {
            Some(i) => {
                proof {
                    lemma_assoc_map_index(old(self).links@, i as int);
                    lemma_keys_unique_remove(old(self).links@, i as int);
                    lemma_assoc_map_remove(old(self).links@, i as int);
                }
                let previous = self.links.remove(i);
                proof {
                    lemma_has_key_remove(old(self).links@, i as int);
                    lemma_keys_unique_push(self.links@, key, value);
                    lemma_assoc_map_push(self.links@, key, value);
                }
                self.links.push((key, value));
                proof {
                    assert(self.spec_links()
                        =~= old(self).spec_links().insert(key, value));
                    lemma_has_key_push(old(self).links@.remove(i as int), key, value);
                    assert forall|k: (u64, u64)| #[trigger] has_key(self.links@, k)
                        implies has_key(old(self).links@, k) by {
                    }
                    assert forall|k: (u64, u64)| #[trigger] has_key(old(self).links@, k)
                        implies has_key(self.links@, k) by {
                    }
                    let n1 = self.links@.len();
                    assert forall|p: int| 0 <= p < n1
                        implies (#[trigger] self.links@[p].0).0 < self.links@[p].0.1
                            && self.links@[p].0.0 < self.id_context@
                            && self.links@[p].0.1 < self.id_context@ by {
                        if p < n1 - 1 {
                            let p0 = if p < i as int { p } else { p + 1 };
                            assert(self.links@[p] == old(self).links@[p0]);
                        } else {
                            assert(self.links@[p].0 == old(self).links@[i as int].0);
                        }
                    }
                    assert(self.wf());
                }
                Some(previous.1)
            }
            None => {
                proof {
                    lemma_keys_unique_push(self.links@, key, value);
                    lemma_assoc_map_push(self.links@, key, value);
                    lemma_has_key_push(self.links@, key, value);
                }
                self.links.push((key, value));
                let ghost pre = *old(self);
                let ghost mid = *self;
                proof {
                    assert(has_key(pre.node_pairs(), ra));
                    assert(has_key(pre.node_pairs(), rb));
                    assert(pre.node_has_key(ra) && pre.node_has_key(rb));
                    assert(mid.nodes@ == pre.nodes@);
                }
                self.add_neighbor_entry(ra, rb);
                let ghost mid2 = *self;
                proof {
                    assert(mid2.node_has_key(rb) <==> mid.node_has_key(rb));
                }
                self.add_neighbor_entry(rb, ra);
                proof {
                    let post = *self;
                    let n = pre.nodes@.len();
                    // Each final node entry, characterised against the
                    // pre-call entries.
                    assert forall|j: int| #![trigger post.nodes@[j]] 0 <= j < post.nodes@.len()
                        implies (if post.nodes@[j].0 == ra {
                            exists|i: int| 0 <= i < n && (#[trigger] pre.nodes@[i]).0 == ra
                                && post.nodes@[j].1.value == pre.nodes@[i].1.value
                                && post.nodes@[j].1.neighbors@
                                    == pre.nodes@[i].1.neighbors@.push(rb)
                        } else if post.nodes@[j].0 == rb {
                            exists|i: int| 0 <= i < n && (#[trigger] pre.nodes@[i]).0 == rb
                                && post.nodes@[j].1.value == pre.nodes@[i].1.value
                                && post.nodes@[j].1.neighbors@
                                    == pre.nodes@[i].1.neighbors@.push(ra)
                        } else {
                            exists|i: int| 0 <= i < n
                                && (#[trigger] pre.nodes@[i]) == post.nodes@[j]
                        }) by {
                        if post.nodes@[j].0 == rb {
                            let p = choose|p: int| 0 <= p < mid2.nodes@.len()
                                && (#[trigger] mid2.nodes@[p]).0 == rb
                                && post.nodes@[j].1.value == mid2.nodes@[p].1.value
                                && post.nodes@[j].1.neighbors@
                                    == mid2.nodes@[p].1.neighbors@.push(ra);
                            assert(mid2.nodes@[p].0 != ra);
                            let q = choose|q: int| 0 <= q < mid.nodes@.len()
                                && (#[trigger] mid.nodes@[q]) == mid2.nodes@[p];
                            assert(pre.nodes@[q] == mid2.nodes@[p]);
                        } else {
                            let p = choose|p: int| 0 <= p < mid2.nodes@.len()
                                && (#[trigger] mid2.nodes@[p]) == post.nodes@[j];
                            if post.nodes@[j].0 == ra {
                                let q = choose|q: int| 0 <= q < mid.nodes@.len()
                                    && (#[trigger] mid.nodes@[q]).0 == ra
                                    && mid2.nodes@[p].1.value == mid.nodes@[q].1.value
                                    && mid2.nodes@[p].1.neighbors@
                                        == mid.nodes@[q].1.neighbors@.push(rb);
                                assert(pre.nodes@[q].0 == ra);
                            } else {
                                let q = choose|q: int| 0 <= q < mid.nodes@.len()
                                    && (#[trigger] mid.nodes@[q]) == mid2.nodes@[p];
                                assert(pre.nodes@[q] == post.nodes@[j]);
                            }
                        }
                    }
                    // The new key is exactly the sorted pair of the two
                    // endpoints, and neither endpoint already recorded the
                    // other.
                    assert(key == norm_pair(ra, rb) && key.0 < key.1);
                    assert(ra < pre.id_context@ && rb < pre.id_context@) by {
                        let ia = choose|i: int| 0 <= i < n && (#[trigger] pre.nodes@[i]).0 == ra;
                        let ib = choose|i: int| 0 <= i < n && (#[trigger] pre.nodes@[i]).0 == rb;
                        assert(pre.nodes@[ia].0 < pre.id_context@);
                        assert(pre.nodes@[ib].0 < pre.id_context@);
                    }
                    // Well-formedness of the final state.
                    assert forall|j: int, m: u64| 0 <= j < post.nodes@.len()
                        implies ((#[trigger] post.nodes@[j].1.neighbors@.contains(m))
                            <==> has_key(post.links@,
                                norm_pair(post.nodes@[j].0, m))) by {
                        let k2 = post.nodes@[j].0;
                        if k2 == ra {
                            let i = choose|i: int| 0 <= i < n
                                && (#[trigger] pre.nodes@[i]).0 == ra
                                && post.nodes@[j].1.value == pre.nodes@[i].1.value
                                && post.nodes@[j].1.neighbors@
                                    == pre.nodes@[i].1.neighbors@.push(rb);
                            assert(pre.nodes@[i].1.neighbors@.contains(m)
                                <==> has_key(pre.links@, norm_pair(ra, m)));
                            if m == rb {
                                assert(post.nodes@[j].1.neighbors@.contains(m)) by {
                                    assert(post.nodes@[j].1.neighbors@[
                                        post.nodes@[j].1.neighbors@.len() - 1] == rb);
                                }
                                assert(has_key(post.links@, key));
                            } else {
                                assert(norm_pair(ra, m) != key);
                                assert(post.nodes@[j].1.neighbors@.contains(m)
                                    <==> pre.nodes@[i].1.neighbors@.contains(m)) by {
                                    let s = pre.nodes@[i].1.neighbors@;
                                    if post.nodes@[j].1.neighbors@.contains(m) {
                                        let w = choose|w: int|
                                            0 <= w < s.push(rb).len() && s.push(rb)[w] == m;
                                        assert(w < s.len() && s[w] == m);
                                    }
                                    if s.contains(m) {
                                        let w = choose|w: int| 0 <= w < s.len() && s[w] == m;
                                        assert(s.push(rb)[w] == m);
                                    }
                                }
                            }
                        } else if k2 == rb {
                            let i = choose|i: int| 0 <= i < n
                                && (#[trigger] pre.nodes@[i]).0 == rb
                                && post.nodes@[j].1.value == pre.nodes@[i].1.value
                                && post.nodes@[j].1.neighbors@
                                    == pre.nodes@[i].1.neighbors@.push(ra);
                            assert(pre.nodes@[i].1.neighbors@.contains(m)
                                <==> has_key(pre.links@, norm_pair(rb, m)));
                            if m == ra {
                                assert(post.nodes@[j].1.neighbors@.contains(m)) by {
                                    assert(post.nodes@[j].1.neighbors@[
                                        post.nodes@[j].1.neighbors@.len() - 1] == ra);
                                }
                                assert(norm_pair(rb, ra) == key);
                                assert(has_key(post.links@, key));
                            } else {
                                assert(norm_pair(rb, m) != key);
                                assert(post.nodes@[j].1.neighbors@.contains(m)
                                    <==> pre.nodes@[i].1.neighbors@.contains(m)) by {
                                    let s = pre.nodes@[i].1.neighbors@;
                                    if post.nodes@[j].1.neighbors@.contains(m) {
                                        let w = choose|w: int|
                                            0 <= w < s.push(ra).len() && s.push(ra)[w] == m;
                                        assert(w < s.len() && s[w] == m);
                                    }
                                    if s.contains(m) {
                                        let w = choose|w: int| 0 <= w < s.len() && s[w] == m;
                                        assert(s.push(ra)[w] == m);
                                    }
                                }
                            }
                        } else {
                            let i = choose|i: int| 0 <= i < n
                                && (#[trigger] pre.nodes@[i]) == post.nodes@[j];
                            assert(pre.nodes@[i].1.neighbors@.contains(m)
                                <==> has_key(pre.links@, norm_pair(k2, m)));
                            assert(norm_pair(k2, m) != key);
                        }
                    }
                    assert forall|j: int| 0 <= j < post.nodes@.len()
                        implies (#[trigger] post.nodes@[j].1.neighbors@).no_duplicates()
                            && post.nodes@[j].0 < post.id_context@ by {
                        let k2 = post.nodes@[j].0;
                        if k2 == ra || k2 == rb {
                            let other = if k2 == ra { rb } else { ra };
                            let i = choose|i: int| 0 <= i < n
                                && (#[trigger] pre.nodes@[i]).0 == k2
                                && post.nodes@[j].1.value == pre.nodes@[i].1.value
                                && post.nodes@[j].1.neighbors@
                                    == pre.nodes@[i].1.neighbors@.push(other);
                            let s = pre.nodes@[i].1.neighbors@;
                            assert(s.contains(other)
                                <==> has_key(pre.links@, norm_pair(k2, other)));
                            assert(norm_pair(k2, other) == key);
                            assert(!s.contains(other));
                            assert forall|p: int, q: int| 0 <= p < q < s.push(other).len()
                                implies s.push(other)[p] != s.push(other)[q] by {
                                if q < s.len() {
                                    assert(s[p] != s[q]);
                                } else {
                                    assert(s.push(other)[p] == s[p]);
                                    if s[p] == other {
                                        assert(s.contains(other));
                                    }
                                }
                            }
                        } else {
                            let i = choose|i: int| 0 <= i < n
                                && (#[trigger] pre.nodes@[i]) == post.nodes@[j];
                        }
                    }
                    assert forall|p: int| 0 <= p < post.links@.len()
                        implies (#[trigger] post.links@[p].0).0 < post.links@[p].0.1
                            && post.links@[p].0.0 < post.id_context@
                            && post.links@[p].0.1 < post.id_context@ by {
                        if p < post.links@.len() - 1 {
                            assert(post.links@[p] == pre.links@[p]);
                        } else {
                            assert(post.links@[p].0 == key);
                        }
                    }
                    assert(self.wf());
                    // Map-level consequences for the contract.
                    assert(mid.spec_nodes() == pre.spec_nodes());
                    assert(mid.spec_neighbors() == pre.spec_neighbors());
                    Self::lemma_neighbors_updated_maps(mid, mid2, ra, rb);
                    Self::lemma_neighbors_updated_maps(mid2, post, rb, ra);
                    assert(pre.node_has_key(ra) && pre.node_has_key(rb)) by {
                        pre.lemma_projections();
                        lemma_assoc_map_dom(pre.node_pairs());
                    }
                    assert(has_key(pre.neigh_pairs(), rb));
                    assert(pre.spec_neighbors().contains_key(rb)) by {
                        lemma_assoc_map_dom(pre.neigh_pairs());
                    }
                    assert(mid2.spec_neighbors()[rb] == pre.spec_neighbors()[rb]) by {
                        assert(rb != ra);
                    }
                    assert(self.spec_neighbors() =~= pre.spec_neighbors()
                        .insert(ra, pre.spec_neighbors()[ra].insert(rb))
                        .insert(rb, pre.spec_neighbors()[rb].insert(ra)));
                }
                None
            }
        }
    }

    /// How one `add_neighbor_entry` call changes the node entries: the entry
    /// keyed `node_key` keeps its payload and gains `m` at the end of its
    /// adjacency list; every other entry is carried over unchanged (possibly
    /// at another position); no key appears or disappears.
    spec fn neighbors_updated(pre: Self, post: Self, node_key: u64, m: u64) -> bool {
        &&& post.links@ == pre.links@
        &&& post.id_context == pre.id_context
        &&& post.nodes@.len() == pre.nodes@.len()
        &&& (forall|k: u64| #[trigger] post.node_has_key(k) <==> pre.node_has_key(k))
        &&& (forall|j: int| #![trigger post.nodes@[j]] 0 <= j < post.nodes@.len()
            ==> (if post.nodes@[j].0 == node_key {
                exists|i: int| 0 <= i < pre.nodes@.len()
                    && (#[trigger] pre.nodes@[i]).0 == node_key
                    && post.nodes@[j].1.value == pre.nodes@[i].1.value
                    && post.nodes@[j].1.neighbors@ == pre.nodes@[i].1.neighbors@.push(m)
            } else {
                exists|i: int| 0 <= i < pre.nodes@.len()
                    && (#[trigger] pre.nodes@[i]) == post.nodes@[j]
            }))
    }

    /// Appends `m` to the adjacency list of the node entry keyed `node_key`,
    /// which must exist. Only that entry changes, and only by the one
    /// appended neighbour.
    fn add_neighbor_entry(&mut self, node_key: u64, m: u64)
        requires
            old(self).nodes_distinct(),
            old(self).node_has_key(node_key),
        ensures
            final(self).nodes_distinct(),
            Self::neighbors_updated(*old(self), *final(self), node_key, m),
    {
        let found = self.find_node(node_key);
        proof {
            if found is None {
                let w = choose|w: int| 0 <= w < self.nodes@.len()
                    && self.nodes@[w].0 == node_key;
                assert(self.nodes@[w].0 == node_key);
            }
        }
        let i = found.unwrap();
        let ghost pre = *self;
        let (k, mut entry) = self.nodes.remove(i);
        entry.neighbors.push(m);
        self.nodes.push((k, entry));
        proof {
            let post = *self;
            let n = pre.nodes@.len();
            assert(post.nodes@.len() == n);
            assert forall|j: int| 0 <= j < n - 1
                implies post.nodes@[j] == pre.nodes@.remove(i as int)[j] by {
            }
            assert forall|k2: u64| #[trigger] post.node_has_key(k2)
                implies pre.node_has_key(k2) by {
                let j = choose|j: int| 0 <= j < post.nodes@.len() && post.nodes@[j].0 == k2;
                if j < n - 1 {
                    let j0 = if j < i as int { j } else { j + 1 };
                    assert(pre.nodes@[j0].0 == k2);
                } else {
                    assert(pre.nodes@[i as int].0 == k2);
                }
            }
            assert forall|k2: u64| pre.node_has_key(k2)
                implies #[trigger] post.node_has_key(k2) by {
                let j0 = choose|j0: int| 0 <= j0 < pre.nodes@.len() && pre.nodes@[j0].0 == k2;
                if j0 == i as int {
                    assert(post.nodes@[n - 1].0 == k2);
                } else {
                    let j = if j0 < i as int { j0 } else { j0 - 1 };
                    assert(post.nodes@[j].0 == k2);
                }
            }
            assert forall|j: int| #![trigger post.nodes@[j]] 0 <= j < post.nodes@.len()
                implies (if post.nodes@[j].0 == node_key {
                    exists|p: int| 0 <= p < pre.nodes@.len()
                        && (#[trigger] pre.nodes@[p]).0 == node_key
                        && post.nodes@[j].1.value == pre.nodes@[p].1.value
                        && post.nodes@[j].1.neighbors@ == pre.nodes@[p].1.neighbors@.push(m)
                } else {
                    exists|p: int| 0 <= p < pre.nodes@.len()
                        && (#[trigger] pre.nodes@[p]) == post.nodes@[j]
                }) by {
                if j < n - 1 {
                    let j0 = if j < i as int { j } else { j + 1 };
                    assert(post.nodes@[j] == pre.nodes@[j0]);
                    if post.nodes@[j].0 == node_key {
                        assert(j0 != i as int);
                        assert(pre.nodes@[j0].0 == pre.nodes@[i as int].0);
                        assert(false);
                    }
                } else {
                    assert(post.nodes@[j].0 == node_key);
                    assert(pre.nodes@[i as int].0 == node_key);
                    assert(post.nodes@[j].1.value == pre.nodes@[i as int].1.value);
                    assert(post.nodes@[j].1.neighbors@
                        == pre.nodes@[i as int].1.neighbors@.push(m));
                }
            }
            assert forall|p: int, q: int| 0 <= p < q < post.nodes@.len()
                implies post.nodes@[p].0 != post.nodes@[q].0 by {
                let p0 = if p < i as int { p } else if p < n - 1 { p + 1 } else { i as int };
                let q0 = if q < i as int { q } else if q < n - 1 { q + 1 } else { i as int };
                assert(post.nodes@[p].0 == pre.nodes@[p0].0);
                assert(post.nodes@[q].0 == pre.nodes@[q0].0);
                assert(p0 != q0);
            }
        }
    }

    /// How one `remove_neighbor_entry` call changes the node entries: the
    /// entry keyed `node_key` keeps its payload and loses one occurrence of
    /// `m` from its adjacency list; every other entry is carried over
    /// unchanged; no key appears or disappears.
    spec fn neighbors_removed(pre: Self, post: Self, node_key: u64, m: u64) -> bool {
        &&& post.links@ == pre.links@
        &&& post.id_context == pre.id_context
        &&& post.nodes@.len() == pre.nodes@.len()
        &&& (forall|k: u64| #[trigger] post.node_has_key(k) <==> pre.node_has_key(k))
        &&& (forall|j: int| #![trigger post.nodes@[j]] 0 <= j < post.nodes@.len()
            ==> (if post.nodes@[j].0 == node_key {
                exists|i: int, w: int|
                    #![trigger pre.nodes@[i].1.neighbors@[w]]
                    0 <= i < pre.nodes@.len()
                    && pre.nodes@[i].0 == node_key
                    && post.nodes@[j].1.value == pre.nodes@[i].1.value
                    && 0 <= w < pre.nodes@[i].1.neighbors@.len()
                    && pre.nodes@[i].1.neighbors@[w] == m
                    && post.nodes@[j].1.neighbors@ == pre.nodes@[i].1.neighbors@.remove(w)
            } else {
                exists|i: int| 0 <= i < pre.nodes@.len()
                    && (#[trigger] pre.nodes@[i]) == post.nodes@[j]
            }))
    }

    /// Removes one occurrence of `m` from the adjacency list of the node
    /// entry keyed `node_key`, which must exist and record `m`. Only that
    /// entry changes, and only by the one dropped neighbour.
    fn remove_neighbor_entry(&mut self, node_key: u64, m: u64)
        requires
            old(self).nodes_distinct(),
            old(self).node_has_key(node_key),
            forall|i: int| 0 <= i < old(self).nodes@.len()
                && (#[trigger] old(self).nodes@[i]).0 == node_key
                ==> old(self).nodes@[i].1.neighbors@.contains(m),
        ensures
            final(self).nodes_distinct(),
            Self::neighbors_removed(*old(self), *final(self), node_key, m),
    {
        let found = self.find_node(node_key);
        proof {
            if found is None {
                let w = choose|w: int| 0 <= w < self.nodes@.len()
                    && self.nodes@[w].0 == node_key;
                assert(self.nodes@[w].0 == node_key);
            }
        }
        let i = found.unwrap();
        let ghost pre = *self;
        let (k, mut entry) = self.nodes.remove(i);
        let mut w: usize = 0;
        while w < entry.neighbors.len() && entry.neighbors[w] != m
            invariant
                w <= entry.neighbors@.len(),
                forall|p: int| 0 <= p < w ==> entry.neighbors@[p] != m,
                entry == pre.nodes@[i as int].1,
            decreases entry.neighbors@.len() - w,
        {
            w = w + 1;
        }
        proof {
            assert(pre.nodes@[i as int].1.neighbors@.contains(m));
            if w >= entry.neighbors@.len() {
                let ww = choose|ww: int| 0 <= ww < entry.neighbors@.len()
                    && entry.neighbors@[ww] == m;
                assert(entry.neighbors@[ww] != m);
            }
        }
        entry.neighbors.remove(w);
        self.nodes.push((k, entry));
        proof {
            let post = *self;
            let n = pre.nodes@.len();
            assert(post.nodes@.len() == n);
            assert forall|k2: u64| #[trigger] post.node_has_key(k2)
                implies pre.node_has_key(k2) by {
                let j = choose|j: int| 0 <= j < post.nodes@.len() && post.nodes@[j].0 == k2;
                if j < n - 1 {
                    let j0 = if j < i as int { j } else { j + 1 };
                    assert(pre.nodes@[j0].0 == k2);
                } else {
                    assert(pre.nodes@[i as int].0 == k2);
                }
            }
            assert forall|k2: u64| pre.node_has_key(k2)
                implies #[trigger] post.node_has_key(k2) by {
                let j0 = choose|j0: int| 0 <= j0 < pre.nodes@.len() && pre.nodes@[j0].0 == k2;
                if j0 == i as int {
                    assert(post.nodes@[n - 1].0 == k2);
                } else {
                    let j = if j0 < i as int { j0 } else { j0 - 1 };
                    assert(post.nodes@[j].0 == k2);
                }
            }
            assert forall|j: int| #![trigger post.nodes@[j]] 0 <= j < post.nodes@.len()
                implies (if post.nodes@[j].0 == node_key {
                    exists|p: int, wx: int|
                        #![trigger pre.nodes@[p].1.neighbors@[wx]]
                        0 <= p < pre.nodes@.len()
                        && pre.nodes@[p].0 == node_key
                        && post.nodes@[j].1.value == pre.nodes@[p].1.value
                        && 0 <= wx < pre.nodes@[p].1.neighbors@.len()
                        && pre.nodes@[p].1.neighbors@[wx] == m
                        && post.nodes@[j].1.neighbors@
                            == pre.nodes@[p].1.neighbors@.remove(wx)
                } else {
                    exists|p: int| 0 <= p < pre.nodes@.len()
                        && (#[trigger] pre.nodes@[p]) == post.nodes@[j]
                }) by {
                if j < n - 1 {
                    let j0 = if j < i as int { j } else { j + 1 };
                    assert(post.nodes@[j] == pre.nodes@[j0]);
                    if post.nodes@[j].0 == node_key {
                        assert(j0 != i as int);
                        assert(pre.nodes@[j0].0 == pre.nodes@[i as int].0);
                        assert(false);
                    }
                } else {
                    assert(post.nodes@[j].0 == node_key);
                    assert(pre.nodes@[i as int].0 == node_key);
                    assert(0 <= (w as int) && (w as int) < pre.nodes@[i as int].1.neighbors@.len());
                    assert(pre.nodes@[i as int].1.neighbors@[w as int] == m);
                    assert(post.nodes@[j].1.neighbors@
                        == pre.nodes@[i as int].1.neighbors@.remove(w as int));
                }
            }
            assert forall|p: int, q: int| 0 <= p < q < post.nodes@.len()
                implies post.nodes@[p].0 != post.nodes@[q].0 by {
                let p0 = if p < i as int { p } else if p < n - 1 { p + 1 } else { i as int };
                let q0 = if q < i as int { q } else if q < n - 1 { q + 1 } else { i as int };
                assert(post.nodes@[p].0 == pre.nodes@[p0].0);
                assert(post.nodes@[q].0 == pre.nodes@[q0].0);
                assert(p0 != q0);
            }
        }
    }

    /// Lifts the entry-wise [`Self::neighbors_removed`] relation to the map
    /// views: node payloads are untouched and exactly the addressed node's
    /// adjacency set loses the dropped neighbour.
    proof fn lemma_neighbors_removed_maps(pre: Self, post: Self, node_key: u64, m: u64)
        requires
            pre.nodes_distinct(),
            post.nodes_distinct(),
            pre.neighbors_distinct(),
            pre.node_has_key(node_key),
            Self::neighbors_removed(pre, post, node_key, m),
        ensures
            post.spec_nodes() == pre.spec_nodes(),
            post.spec_neighbors() == pre.spec_neighbors()
                .insert(node_key, pre.spec_neighbors()[node_key].remove(m)),
            post.spec_links() == pre.spec_links(),
            post.next_raw() == pre.next_raw(),
    {
        pre.lemma_projections();
        post.lemma_projections();
        lemma_assoc_map_dom(pre.node_pairs());
        lemma_assoc_map_dom(post.node_pairs());
        lemma_assoc_map_dom(pre.neigh_pairs());
        lemma_assoc_map_dom(post.neigh_pairs());
        assert forall|k: u64| pre.node_has_key(k)
            implies post.spec_nodes()[k] == pre.spec_nodes()[k]
                && (k != node_key ==> post.spec_neighbors()[k] == pre.spec_neighbors()[k]) by {
            assert(post.node_has_key(k));
            let j = choose|j: int| 0 <= j < post.nodes@.len() && post.nodes@[j].0 == k;
            lemma_assoc_map_index(post.node_pairs(), j);
            lemma_assoc_map_index(post.neigh_pairs(), j);
            if post.nodes@[j].0 == node_key {
                let (i, w): (int, int) = choose|i: int, w: int|
                    #![trigger pre.nodes@[i].1.neighbors@[w]]
                    0 <= i < pre.nodes@.len()
                    && pre.nodes@[i].0 == node_key
                    && post.nodes@[j].1.value == pre.nodes@[i].1.value
                    && 0 <= w < pre.nodes@[i].1.neighbors@.len()
                    && pre.nodes@[i].1.neighbors@[w] == m
                    && post.nodes@[j].1.neighbors@ == pre.nodes@[i].1.neighbors@.remove(w);
                lemma_assoc_map_index(pre.node_pairs(), i);
                lemma_assoc_map_index(pre.neigh_pairs(), i);
            } else {
                let i = choose|i: int| 0 <= i < pre.nodes@.len()
                    && (#[trigger] pre.nodes@[i]) == post.nodes@[j];
                lemma_assoc_map_index(pre.node_pairs(), i);
                lemma_assoc_map_index(pre.neigh_pairs(), i);
            }
        }
        assert(post.spec_nodes() =~= pre.spec_nodes());
        assert(post.node_has_key(node_key));
        let jk = choose|jk: int| 0 <= jk < post.nodes@.len() && post.nodes@[jk].0 == node_key;
        lemma_assoc_map_index(post.neigh_pairs(), jk);
        let (ik, wk): (int, int) = choose|ik: int, wk: int|
            #![trigger pre.nodes@[ik].1.neighbors@[wk]]
            0 <= ik < pre.nodes@.len()
            && pre.nodes@[ik].0 == node_key
            && post.nodes@[jk].1.value == pre.nodes@[ik].1.value
            && 0 <= wk < pre.nodes@[ik].1.neighbors@.len()
            && pre.nodes@[ik].1.neighbors@[wk] == m
            && post.nodes@[jk].1.neighbors@ == pre.nodes@[ik].1.neighbors@.remove(wk);
        lemma_assoc_map_index(pre.neigh_pairs(), ik);
        assert(post.nodes@[jk].1.neighbors@.to_set()
            =~= pre.nodes@[ik].1.neighbors@.to_set().remove(m)) by {
            let s = pre.nodes@[ik].1.neighbors@;
            let t = s.remove(wk);
            assert(s.no_duplicates());
            assert forall|x: u64| t.contains(x) implies s.to_set().remove(m).contains(x) by {
                let w2 = choose|w2: int| 0 <= w2 < t.len() && t[w2] == x;
                let w0 = if w2 < wk { w2 } else { w2 + 1 };
                assert(s[w0] == x);
                assert(w0 != wk);
                if x == m {
                    assert(s[w0] == s[wk]);
                    assert(false);
                }
            }
            assert forall|x: u64| s.to_set().remove(m).contains(x) implies t.contains(x) by {
                let w0 = choose|w0: int| 0 <= w0 < s.len() && s[w0] == x;
                assert(w0 != wk);
                let w2 = if w0 < wk { w0 } else { w0 - 1 };
                assert(t[w2] == x);
            }
        }
        assert(post.spec_neighbors() =~= pre.spec_neighbors()
            .insert(node_key, pre.spec_neighbors()[node_key].remove(m)));
    }

    /// Lifts the entry-wise [`Self::neighbors_updated`] relation to the map
    /// views: node payloads are untouched and exactly the addressed node's
    /// adjacency set gains the new neighbour.
    proof fn lemma_neighbors_updated_maps(pre: Self, post: Self, node_key: u64, m: u64)
        requires
            pre.nodes_distinct(),
            post.nodes_distinct(),
            pre.node_has_key(node_key),
            Self::neighbors_updated(pre, post, node_key, m),
        ensures
            post.spec_nodes() == pre.spec_nodes(),
            post.spec_neighbors() == pre.spec_neighbors()
                .insert(node_key, pre.spec_neighbors()[node_key].insert(m)),
            post.spec_links() == pre.spec_links(),
            post.next_raw() == pre.next_raw(),
    {
        pre.lemma_projections();
        post.lemma_projections();
        lemma_assoc_map_dom(pre.node_pairs());
        lemma_assoc_map_dom(post.node_pairs());
        lemma_assoc_map_dom(pre.neigh_pairs());
        lemma_assoc_map_dom(post.neigh_pairs());
        assert forall|k: u64| pre.node_has_key(k)
            implies post.spec_nodes()[k] == pre.spec_nodes()[k]
                && (k != node_key ==> post.spec_neighbors()[k] == pre.spec_neighbors()[k]) by {
            assert(post.node_has_key(k));
            let j = choose|j: int| 0 <= j < post.nodes@.len() && post.nodes@[j].0 == k;
            lemma_assoc_map_index(post.node_pairs(), j);
            lemma_assoc_map_index(post.neigh_pairs(), j);
            if post.nodes@[j].0 == node_key {
                let i = choose|i: int| 0 <= i < pre.nodes@.len()
                    && (#[trigger] pre.nodes@[i]).0 == node_key
                    && post.nodes@[j].1.value == pre.nodes@[i].1.value
                    && post.nodes@[j].1.neighbors@ == pre.nodes@[i].1.neighbors@.push(m);
                lemma_assoc_map_index(pre.node_pairs(), i);
                lemma_assoc_map_index(pre.neigh_pairs(), i);
            } else {
                let i = choose|i: int| 0 <= i < pre.nodes@.len()
                    && (#[trigger] pre.nodes@[i]) == post.nodes@[j];
                lemma_assoc_map_index(pre.node_pairs(), i);
                lemma_assoc_map_index(pre.neigh_pairs(), i);
            }
        }
        assert(post.spec_nodes() =~= pre.spec_nodes());
        assert(post.node_has_key(node_key));
        let jk = choose|jk: int| 0 <= jk < post.nodes@.len() && post.nodes@[jk].0 == node_key;
        lemma_assoc_map_index(post.neigh_pairs(), jk);
        let ik = choose|ik: int| 0 <= ik < pre.nodes@.len()
            && (#[trigger] pre.nodes@[ik]).0 == node_key
            && post.nodes@[jk].1.value == pre.nodes@[ik].1.value
            && post.nodes@[jk].1.neighbors@ == pre.nodes@[ik].1.neighbors@.push(m);
        lemma_assoc_map_index(pre.neigh_pairs(), ik);
        assert(post.nodes@[jk].1.neighbors@.to_set()
            =~= pre.nodes@[ik].1.neighbors@.to_set().insert(m)) by {
            let s = pre.nodes@[ik].1.neighbors@;
            assert forall|x: u64| s.push(m).contains(x)
                implies s.to_set().insert(m).contains(x) by {
                let w = choose|w: int| 0 <= w < s.push(m).len() && s.push(m)[w] == x;
                if w < s.len() {
                    assert(s.contains(x));
                }
            }
            assert forall|x: u64| s.to_set().insert(m).contains(x)
                implies s.push(m).contains(x) by {
                if x == m {
                    assert(s.push(m)[s.len() as int] == x);
                } else {
                    let w = choose|w: int| 0 <= w < s.len() && s[w] == x;
                    assert(s.push(m)[w] == x);
                }
            }
        }
        assert(post.spec_neighbors() =~= pre.spec_neighbors()
            .insert(node_key, pre.spec_neighbors()[node_key].insert(m)));
    }

    /// Tries to remove a link from the graph, pruning both endpoints'
    /// adjacency sets. A link whose endpoints have no node entry (possible
    /// only in reconstructed graphs) is a caller error, excluded by
    /// precondition.
    #[verifier::rlimit(50)]
    pub fn remove_link(&mut self, nodes: (Id<Node>, Id<Node>)) -> (r: Option<Link>)
        requires
            old(self).wf(),
            old(self).spec_links().contains_key(norm_pair(nodes.0@, nodes.1@))
                ==> old(self).spec_nodes().contains_key(nodes.0@)
                    && old(self).spec_nodes().contains_key(nodes.1@),
        ensures
            final(self).wf(),
            final(self).spec_nodes() == old(self).spec_nodes(),
            final(self).next_raw() == old(self).next_raw(),
            final(self).spec_links()
                == old(self).spec_links().remove(norm_pair(nodes.0@, nodes.1@)),
            match r {
                Some(v) => old(self).spec_links().contains_key(norm_pair(nodes.0@, nodes.1@))
                    && v == old(self).spec_links()[norm_pair(nodes.0@, nodes.1@)]
                    && final(self).spec_neighbors() == old(self).spec_neighbors()
                        .insert(nodes.0@, old(self).spec_neighbors()[nodes.0@].remove(nodes.1@))
                        .insert(nodes.1@, old(self).spec_neighbors()[nodes.1@].remove(nodes.0@)),
                None => !old(self).spec_links().contains_key(norm_pair(nodes.0@, nodes.1@))
                    && final(self).spec_neighbors() == old(self).spec_neighbors(),
            },
    {
        proof {
            lemma_assoc_map_dom(old(self).links@);
        }
        let (ra, rb) = (nodes.0.into_raw(), nodes.1.into_raw());
        let key = if ra <= rb { (ra, rb) } else { (rb, ra) };
        match self.find_link(key) {
            None => {
                proof {
                    assert(old(self).spec_links()
                        =~= old(self).spec_links().remove(norm_pair(ra, rb)));
                }
                None
            }
            Some(i) => {
                proof {
                    lemma_assoc_map_index(old(self).links@, i as int);
                    lemma_keys_unique_remove(old(self).links@, i as int);
                    lemma_assoc_map_remove(old(self).links@, i as int);
                    lemma_has_key_remove(old(self).links@, i as int);
                    assert(ra != rb);
                    old(self).lemma_projections();
                    lemma_assoc_map_dom(old(self).node_pairs());
                    assert(old(self).node_has_key(ra) && old(self).node_has_key(rb));
                }
                let entry = self.links.remove(i);
                let ghost pre = *old(self);
                let ghost mid = *self;
                proof {
                    // Both endpoints still record each other: the link was
                    // present before this removal.
                    assert forall|p: int| 0 <= p < mid.nodes@.len()
                        && ((#[trigger] mid.nodes@[p]).0 == ra || mid.nodes@[p].0 == rb)
                        implies mid.nodes@[p].1.neighbors@.contains(
                            if mid.nodes@[p].0 == ra { rb } else { ra }) by {
                        let other: u64 = if mid.nodes@[p].0 == ra { rb } else { ra };
                        assert(norm_pair(mid.nodes@[p].0, other) == key);
                        assert(has_key(pre.links@, key));
                        assert(pre.nodes@[p].1.neighbors@.contains(other)
                            <==> has_key(pre.links@, norm_pair(pre.nodes@[p].0, other)));
                    }
                    assert(mid.node_has_key(ra)) by {
                        let w = choose|w: int| 0 <= w < pre.nodes@.len()
                            && pre.nodes@[w].0 == ra;
                        assert(mid.nodes@[w].0 == ra);
                    }
                }
                self.remove_neighbor_entry(ra, rb);
                let ghost mid2 = *self;
                proof {
                    assert(mid2.node_has_key(rb) <==> mid.node_has_key(rb));
                    assert forall|p: int| 0 <= p < mid2.nodes@.len()
                        && (#[trigger] mid2.nodes@[p]).0 == rb
                        implies mid2.nodes@[p].1.neighbors@.contains(ra) by {
                        let q = choose|q: int| 0 <= q < mid.nodes@.len()
                            && (#[trigger] mid.nodes@[q]) == mid2.nodes@[p];
                    }
                }
                self.remove_neighbor_entry(rb, ra);
                proof {
                    let post = *self;
                    let n = pre.nodes@.len();
                    // Each final node entry, characterised against the
                    // pre-call entries.
                    assert forall|j: int| #![trigger post.nodes@[j]] 0 <= j < post.nodes@.len()
                        implies (if post.nodes@[j].0 == ra {
                            exists|p: int, w: int|
                                #![trigger pre.nodes@[p].1.neighbors@[w]]
                                0 <= p < n && pre.nodes@[p].0 == ra
                                && post.nodes@[j].1.value == pre.nodes@[p].1.value
                                && 0 <= w < pre.nodes@[p].1.neighbors@.len()
                                && pre.nodes@[p].1.neighbors@[w] == rb
                                && post.nodes@[j].1.neighbors@
                                    == pre.nodes@[p].1.neighbors@.remove(w)
                        } else if post.nodes@[j].0 == rb {
                            exists|p: int, w: int|
                                #![trigger pre.nodes@[p].1.neighbors@[w]]
                                0 <= p < n && pre.nodes@[p].0 == rb
                                && post.nodes@[j].1.value == pre.nodes@[p].1.value
                                && 0 <= w < pre.nodes@[p].1.neighbors@.len()
                                && pre.nodes@[p].1.neighbors@[w] == ra
                                && post.nodes@[j].1.neighbors@
                                    == pre.nodes@[p].1.neighbors@.remove(w)
                        } else {
                            exists|p: int| 0 <= p < n
                                && (#[trigger] pre.nodes@[p]) == post.nodes@[j]
                        }) by {
                        if post.nodes@[j].0 == rb {
                            let (p, w): (int, int) = choose|p: int, w: int|
                                #![trigger mid2.nodes@[p].1.neighbors@[w]]
                                0 <= p < mid2.nodes@.len()
                                && mid2.nodes@[p].0 == rb
                                && post.nodes@[j].1.value == mid2.nodes@[p].1.value
                                && 0 <= w < mid2.nodes@[p].1.neighbors@.len()
                                && mid2.nodes@[p].1.neighbors@[w] == ra
                                && post.nodes@[j].1.neighbors@
                                    == mid2.nodes@[p].1.neighbors@.remove(w);
                            let q = choose|q: int| 0 <= q < mid.nodes@.len()
                                && (#[trigger] mid.nodes@[q]) == mid2.nodes@[p];
                            assert(pre.nodes@[q] == mid2.nodes@[p]);
                            assert(pre.nodes@[q].1.neighbors@[w] == ra);
                        } else if post.nodes@[j].0 == ra {
                            let p = choose|p: int| 0 <= p < mid2.nodes@.len()
                                && (#[trigger] mid2.nodes@[p]) == post.nodes@[j];
                            let (q, w): (int, int) = choose|q: int, w: int|
                                #![trigger mid.nodes@[q].1.neighbors@[w]]
                                0 <= q < mid.nodes@.len()
                                && mid.nodes@[q].0 == ra
                                && mid2.nodes@[p].1.value == mid.nodes@[q].1.value
                                && 0 <= w < mid.nodes@[q].1.neighbors@.len()
                                && mid.nodes@[q].1.neighbors@[w] == rb
                                && mid2.nodes@[p].1.neighbors@
                                    == mid.nodes@[q].1.neighbors@.remove(w);
                            assert(pre.nodes@[q].1.neighbors@[w] == rb);
                        } else {
                            let p = choose|p: int| 0 <= p < mid2.nodes@.len()
                                && (#[trigger] mid2.nodes@[p]) == post.nodes@[j];
                            let q = choose|q: int| 0 <= q < mid.nodes@.len()
                                && (#[trigger] mid.nodes@[q]) == mid2.nodes@[p];
                            assert(pre.nodes@[q] == post.nodes@[j]);
                        }
                    }
                    // Well-formedness of the final state.
                    assert forall|j: int, m: u64| 0 <= j < post.nodes@.len()
                        implies ((#[trigger] post.nodes@[j].1.neighbors@.contains(m))
                            <==> has_key(post.links@,
                                norm_pair(post.nodes@[j].0, m))) by {
                        let k2 = post.nodes@[j].0;
                        if k2 == ra || k2 == rb {
                            let other: u64 = if k2 == ra { rb } else { ra };
                            let (p, w): (int, int) = choose|p: int, w: int|
                                #![trigger pre.nodes@[p].1.neighbors@[w]]
                                0 <= p < n && pre.nodes@[p].0 == k2
                                && post.nodes@[j].1.value == pre.nodes@[p].1.value
                                && 0 <= w < pre.nodes@[p].1.neighbors@.len()
                                && pre.nodes@[p].1.neighbors@[w] == other
                                && post.nodes@[j].1.neighbors@
                                    == pre.nodes@[p].1.neighbors@.remove(w);
                            let s = pre.nodes@[p].1.neighbors@;
                            assert(s.contains(m)
                                <==> has_key(pre.links@, norm_pair(k2, m)));
                            assert(s.no_duplicates());
                            if m == other {
                                assert(norm_pair(k2, m) == key);
                                assert(!post.nodes@[j].1.neighbors@.contains(m)) by {
                                    if post.nodes@[j].1.neighbors@.contains(m) {
                                        let w2 = choose|w2: int|
                                            0 <= w2 < s.remove(w).len()
                                                && s.remove(w)[w2] == m;
                                        let w0 = if w2 < w { w2 } else { w2 + 1 };
                                        assert(s[w0] == m && s[w] == m && w0 != w);
                                    }
                                }
                                assert(!has_key(post.links@, key));
                            } else {
                                assert(norm_pair(k2, m) != key);
                                assert(post.nodes@[j].1.neighbors@.contains(m)
                                    <==> s.contains(m)) by {
                                    if post.nodes@[j].1.neighbors@.contains(m) {
                                        let w2 = choose|w2: int|
                                            0 <= w2 < s.remove(w).len()
                                                && s.remove(w)[w2] == m;
                                        let w0 = if w2 < w { w2 } else { w2 + 1 };
                                        assert(s[w0] == m);
                                    }
                                    if s.contains(m) {
                                        let w0 = choose|w0: int|
                                            0 <= w0 < s.len() && s[w0] == m;
                                        assert(w0 != w);
                                        let w2 = if w0 < w { w0 } else { w0 - 1 };
                                        assert(s.remove(w)[w2] == m);
                                    }
                                }
                            }
                        } else {
                            let p = choose|p: int| 0 <= p < n
                                && (#[trigger] pre.nodes@[p]) == post.nodes@[j];
                            assert(pre.nodes@[p].1.neighbors@.contains(m)
                                <==> has_key(pre.links@, norm_pair(k2, m)));
                            assert(norm_pair(k2, m) != key);
                        }
                    }
                    assert forall|j: int| 0 <= j < post.nodes@.len()
                        implies (#[trigger] post.nodes@[j].1.neighbors@).no_duplicates()
                            && post.nodes@[j].0 < post.id_context@ by {
                        let k2 = post.nodes@[j].0;
                        if k2 == ra || k2 == rb {
                            let other: u64 = if k2 == ra { rb } else { ra };
                            let (p, w): (int, int) = choose|p: int, w: int|
                                #![trigger pre.nodes@[p].1.neighbors@[w]]
                                0 <= p < n && pre.nodes@[p].0 == k2
                                && post.nodes@[j].1.value == pre.nodes@[p].1.value
                                && 0 <= w < pre.nodes@[p].1.neighbors@.len()
                                && pre.nodes@[p].1.neighbors@[w] == other
                                && post.nodes@[j].1.neighbors@
                                    == pre.nodes@[p].1.neighbors@.remove(w);
                            let s = pre.nodes@[p].1.neighbors@;
                            assert forall|x: int, y: int|
                                0 <= x < y < s.remove(w).len()
                                implies s.remove(w)[x] != s.remove(w)[y] by {
                                let x0 = if x < w { x } else { x + 1 };
                                let y0 = if y < w { y } else { y + 1 };
                                assert(s.remove(w)[x] == s[x0]);
                                assert(s.remove(w)[y] == s[y0]);
                            }
                        } else {
                            let p = choose|p: int| 0 <= p < n
                                && (#[trigger] pre.nodes@[p]) == post.nodes@[j];
                        }
                    }
                    assert forall|p: int| 0 <= p < post.links@.len()
                        implies (#[trigger] post.links@[p].0).0 < post.links@[p].0.1
                            && post.links@[p].0.0 < post.id_context@
                            && post.links@[p].0.1 < post.id_context@ by {
                        let p0 = if p < i as int { p } else { p + 1 };
                        assert(post.links@[p] == pre.links@[p0]);
                    }
                    assert(self.wf());
                    // Map-level consequences for the contract.
                    assert(mid.spec_nodes() == pre.spec_nodes());
                    assert(mid.spec_neighbors() == pre.spec_neighbors());
                    Self::lemma_neighbors_removed_maps(mid, mid2, ra, rb);
                    assert(mid2.neighbors_distinct()) by {
                        assert forall|j: int| 0 <= j < mid2.nodes@.len()
                            implies (#[trigger] mid2.nodes@[j].1.neighbors@)
                                .no_duplicates() by {
                            if mid2.nodes@[j].0 == ra {
                                let (p, w): (int, int) = choose|p: int, w: int|
                                    #![trigger mid.nodes@[p].1.neighbors@[w]]
                                    0 <= p < mid.nodes@.len()
                                    && mid.nodes@[p].0 == ra
                                    && mid2.nodes@[j].1.value == mid.nodes@[p].1.value
                                    && 0 <= w < mid.nodes@[p].1.neighbors@.len()
                                    && mid.nodes@[p].1.neighbors@[w] == rb
                                    && mid2.nodes@[j].1.neighbors@
                                        == mid.nodes@[p].1.neighbors@.remove(w);
                                let s = mid.nodes@[p].1.neighbors@;
                                assert forall|x: int, y: int|
                                    0 <= x < y < s.remove(w).len()
                                    implies s.remove(w)[x] != s.remove(w)[y] by {
                                    let x0 = if x < w { x } else { x + 1 };
                                    let y0 = if y < w { y } else { y + 1 };
                                    assert(s.remove(w)[x] == s[x0]);
                                    assert(s.remove(w)[y] == s[y0]);
                                }
                            } else {
                                let p = choose|p: int| 0 <= p < mid.nodes@.len()
                                    && (#[trigger] mid.nodes@[p]) == mid2.nodes@[j];
                            }
                        }
                    }
                    Self::lemma_neighbors_removed_maps(mid2, post, rb, ra);
                    assert(has_key(pre.neigh_pairs(), rb));
                    assert(pre.spec_neighbors().contains_key(rb)) by {
                        lemma_assoc_map_dom(pre.neigh_pairs());
                    }
                    assert(mid2.spec_neighbors()[rb] == pre.spec_neighbors()[rb]) by {
                        assert(rb != ra);
                    }
                    assert(self.spec_neighbors() =~= pre.spec_neighbors()
                        .insert(ra, pre.spec_neighbors()[ra].remove(rb))
                        .insert(rb, pre.spec_neighbors()[rb].remove(ra)));
                }
                Some(entry.1)
            }
        }
    }

    /// In a well-formed graph every stored link key is a sorted pair of
    /// distinct identifiers below the context's counter.
    proof fn lemma_links_sorted(self)
        requires
            self.wf(),
        ensures
            forall|k: (u64, u64)| #[trigger] self.spec_links().contains_key(k)
                ==> k.0 < k.1 && k.0 < self.next_raw() && k.1 < self.next_raw(),
    {
        lemma_assoc_map_dom(self.links@);
        assert forall|k: (u64, u64)| #[trigger] self.spec_links().contains_key(k)
            implies k.0 < k.1 && k.0 < self.next_raw() && k.1 < self.next_raw() by {
            let i = choose|i: int| 0 <= i < self.links@.len() && self.links@[i].0 == k;
            assert(self.links@[i].0.0 < self.links@[i].0.1);
            assert(self.links@[i].0.0 < self.id_context@);
        }
    }

    /// What a successful node removal guarantees: the node's entry is gone,
    /// every link touching it is gone with payloads reported in `vals`, and
    /// every remaining adjacency set has lost the removed identifier.
    pub open spec fn node_removed(pre: Self, post: Self, n: u64, value: Node, vals: Seq<Link>)
        -> bool {
        &&& pre.spec_nodes().contains_key(n)
        &&& value == pre.spec_nodes()[n]
        &&& post.spec_nodes() == pre.spec_nodes().remove(n)
        &&& post.spec_links() == links_not_touching(pre.spec_links(), n)
        &&& post.spec_neighbors() == neighbors_pruned(pre.spec_neighbors(), n)
        &&& vals.len() == pre.spec_neighbors()[n].len()
        &&& exists|ms: Seq<u64>| ms.to_set() == pre.spec_neighbors()[n]
            && #[trigger] cascade_values(pre.spec_links(), n, ms, vals)
    }

    /// Tries to remove a node from the graph, as well as every link that
    /// touches it, pruning the partners' adjacency sets. Returns the node's
    /// payload and the payloads of the cascaded links, in no guaranteed
    /// order. A remaining link whose other endpoint has no node entry
    /// (possible only in reconstructed graphs) is a caller error, excluded
    /// by precondition.
    #[verifier::rlimit(100)]
    pub fn remove_node(&mut self, id: Id<Node>) -> (r: Option<(Node, Vec<Link>)>)
        requires
            old(self).wf(),
            forall|m: u64| old(self).spec_nodes().contains_key(id@)
                && (#[trigger] old(self).spec_neighbors()[id@].contains(m))
                ==> old(self).spec_nodes().contains_key(m),
        ensures
            final(self).wf(),
            final(self).next_raw() == old(self).next_raw(),
            match r {
                Some(pair) => Self::node_removed(
                    *old(self), *final(self), id@, pair.0, pair.1@),
                None => !old(self).spec_nodes().contains_key(id@)
                    && final(self).spec_nodes() == old(self).spec_nodes()
                    && final(self).spec_links() == old(self).spec_links()
                    && final(self).spec_neighbors() == old(self).spec_neighbors(),
            },
    {
        proof {
            old(self).lemma_projections();
            lemma_assoc_map_dom(old(self).node_pairs());
        }
        let idr = id.into_raw();
        let found = self.find_node(idr);
        if found.is_none() {
            return None;
        }
        let i0 = found.unwrap();
        let ghost pre = *old(self);
        // Copy out the neighbour list of the node to be removed.
        let entry_neighbors = &self.nodes[i0].1.neighbors;
        let mut own: Vec<u64> = Vec::new();
        let mut c: usize = 0;
        while c < entry_neighbors.len()
            invariant
                c <= entry_neighbors@.len(),
                own@ == entry_neighbors@.take(c as int),
            decreases entry_neighbors@.len() - c,
        {
            own.push(entry_neighbors[c]);
            c = c + 1;
        }
        proof {
            assert(own@ =~= pre.nodes@[i0 as int].1.neighbors@);
            lemma_assoc_map_index(pre.neigh_pairs(), i0 as int);
            assert(own@.to_set() == pre.spec_neighbors()[idr]);
            assert(pre.spec_nodes().contains_key(idr));
            pre.lemma_links_sorted();
        }
        let mut removed: Vec<Link> = Vec::new();
        let mut p: usize = 0;
        while p < own.len()
            invariant
                p <= own@.len(),
                idr == id@,
                pre == *old(self),
                pre.wf(),
                pre.spec_nodes().contains_key(idr),
                forall|m: u64| (#[trigger] pre.spec_neighbors()[idr].contains(m))
                    ==> pre.spec_nodes().contains_key(m),
                own@.no_duplicates(),
                own@.to_set() == pre.spec_neighbors()[idr],
                self.wf(),
                self.spec_nodes() == pre.spec_nodes(),
                self.next_raw() == pre.next_raw(),
                forall|k: (u64, u64)| #[trigger] self.spec_links().contains_key(k)
                    <==> (pre.spec_links().contains_key(k)
                        && !(exists|q: int| 0 <= q < p
                            && k == norm_pair(idr, #[trigger] own@[q]))),
                forall|k: (u64, u64)| #[trigger] self.spec_links().contains_key(k)
                    ==> self.spec_links()[k] == pre.spec_links()[k],
                forall|n2: u64| #[trigger] self.spec_neighbors().contains_key(n2)
                    <==> pre.spec_neighbors().contains_key(n2),
                forall|n2: u64| #[trigger] self.spec_neighbors().contains_key(n2)
                    ==> self.spec_neighbors()[n2] =~= (
                        if n2 == idr {
                            pre.spec_neighbors()[idr]
                                .difference(own@.take(p as int).to_set())
                        } else if own@.take(p as int).contains(n2) {
                            pre.spec_neighbors()[n2].remove(idr)
                        } else {
                            pre.spec_neighbors()[n2]
                        }),
                removed@.len() == p,
                forall|q: int| 0 <= q < p
                    ==> removed@[q] == pre.spec_links()[norm_pair(idr, #[trigger] own@[q])],
            decreases own@.len() - p,
        {
            let m = own[p];
            proof {
                assert(own@.to_set().contains(m));
                assert(pre.spec_neighbors()[idr].contains(m));
                lemma_adjacency_consistency(pre, idr, m);
                pre.lemma_links_sorted();
                assert(pre.spec_links().contains_key(norm_pair(idr, m)));
                assert(m != idr);
                // This link was not removed in an earlier iteration.
                assert(self.spec_links().contains_key(norm_pair(idr, m))) by {
                    if exists|q: int| 0 <= q < p
                        && norm_pair(idr, m) == norm_pair(idr, #[trigger] own@[q]) {
                        let q = choose|q: int| 0 <= q < p
                            && norm_pair(idr, m) == norm_pair(idr, #[trigger] own@[q]);
                        assert(own@[q] == m);
                    }
                }
            }
            let ghost cur = *self;
            let got = self.remove_link((id, Id::from_raw(m)));
            let link_value = got.unwrap();
            removed.push(link_value);
            proof {
                let key_m = norm_pair(idr, m);
                assert forall|k: (u64, u64)| #[trigger] self.spec_links().contains_key(k)
                    <==> (pre.spec_links().contains_key(k)
                        && !(exists|q: int| 0 <= q < p + 1
                            && k == norm_pair(idr, #[trigger] own@[q]))) by {
                    if k == key_m {
                        assert(norm_pair(idr, own@[p as int]) == k);
                    } else {
                        if exists|q: int| 0 <= q < p + 1
                            && k == norm_pair(idr, #[trigger] own@[q]) {
                            let q = choose|q: int| 0 <= q < p + 1
                                && k == norm_pair(idr, #[trigger] own@[q]);
                            assert(q < p);
                        }
                    }
                }
                assert(cur.spec_nodes().contains_key(idr) && cur.spec_nodes().contains_key(m));
                assert(cur.spec_neighbors().contains_key(idr)) by {
                    lemma_neighbors_dom(cur, idr);
                }
                assert(cur.spec_neighbors().contains_key(m)) by {
                    lemma_neighbors_dom(cur, m);
                }
                assert forall|n2: u64| #[trigger] self.spec_neighbors().contains_key(n2)
                    <==> cur.spec_neighbors().contains_key(n2) by {
                }
                assert forall|n2: u64| #[trigger] self.spec_neighbors().contains_key(n2)
                    implies self.spec_neighbors()[n2] =~= (
                        if n2 == idr {
                            pre.spec_neighbors()[idr]
                                .difference(own@.take(p as int + 1).to_set())
                        } else if own@.take(p as int + 1).contains(n2) {
                            pre.spec_neighbors()[n2].remove(idr)
                        } else {
                            pre.spec_neighbors()[n2]
                        }) by {
                    assert(cur.spec_neighbors().contains_key(n2));
                    assert(cur.spec_neighbors()[n2] =~= (
                        if n2 == idr {
                            pre.spec_neighbors()[idr]
                                .difference(own@.take(p as int).to_set())
                        } else if own@.take(p as int).contains(n2) {
                            pre.spec_neighbors()[n2].remove(idr)
                        } else {
                            pre.spec_neighbors()[n2]
                        }));
                    assert forall|x: u64| own@.take(p as int + 1).contains(x)
                        <==> (own@.take(p as int).contains(x) || own@[p as int] == x) by {
                        if own@.take(p as int + 1).contains(x) {
                            let w = choose|w: int|
                                0 <= w < p + 1 && #[trigger] own@.take(p as int + 1)[w] == x;
                            if w < p {
                                assert(own@.take(p as int)[w] == x);
                            }
                        }
                        if own@.take(p as int).contains(x) {
                            let w = choose|w: int| 0 <= w < p && own@.take(p as int)[w] == x;
                            assert(own@.take(p as int + 1)[w] == x);
                        }
                        if own@[p as int] == x {
                            assert(own@.take(p as int + 1)[p as int] == x);
                        }
                    }
                    if n2 == idr {
                        assert(self.spec_neighbors()[idr] =~= cur.spec_neighbors()[idr]
                            .remove(m));
                    } else if n2 == m {
                        assert(!own@.take(p as int).contains(m)) by {
                            if own@.take(p as int).contains(m) {
                                let w = choose|w: int| 0 <= w < p
                                    && own@.take(p as int)[w] == m;
                                assert(own@[w] == own@[p as int]);
                            }
                        }
                        assert(self.spec_neighbors()[m] =~= cur.spec_neighbors()[m]
                            .remove(idr));
                    } else {
                        assert(self.spec_neighbors()[n2] == cur.spec_neighbors()[n2]);
                    }
                }
                assert(removed@[p as int] == pre.spec_links()[key_m]);
            }
            p = p + 1;
        }
        // Every link touching the node is gone; remove the node entry.
        proof {
            self.lemma_projections();
            lemma_assoc_map_dom(self.node_pairs());
            assert(self.node_has_key(idr));
        }
        let found2 = self.find_node(idr);
        proof {
            if found2 is None {
                let w = choose|w: int| 0 <= w < self.nodes@.len()
                    && self.nodes@[w].0 == idr;
                assert(self.nodes@[w].0 == idr);
            }
        }
        let i2 = found2.unwrap();
        let ghost cur2 = *self;
        proof {
            cur2.lemma_projections();
            lemma_assoc_map_index(cur2.node_pairs(), i2 as int);
            lemma_keys_unique_remove(cur2.node_pairs(), i2 as int);
            lemma_keys_unique_remove(cur2.neigh_pairs(), i2 as int);
            lemma_assoc_map_remove(cur2.node_pairs(), i2 as int);
            lemma_assoc_map_remove(cur2.neigh_pairs(), i2 as int);
        }
        let (_, entry2) = self.nodes.remove(i2);
        proof {
            let post = *self;
            post.lemma_projections();
            assert(post.node_pairs() =~= cur2.node_pairs().remove(i2 as int));
            assert(post.neigh_pairs() =~= cur2.neigh_pairs().remove(i2 as int));
            assert(post.spec_nodes() == cur2.spec_nodes().remove(idr));
            assert(post.spec_neighbors() == cur2.spec_neighbors().remove(idr));
            // Well-formedness: the remaining entries are untouched.
            assert forall|j: int, x: u64| 0 <= j < post.nodes@.len()
                implies ((#[trigger] post.nodes@[j].1.neighbors@.contains(x))
                    <==> has_key(post.links@, norm_pair(post.nodes@[j].0, x))) by {
                let j0 = if j < i2 as int { j } else { j + 1 };
                assert(post.nodes@[j] == cur2.nodes@[j0]);
            }
            assert forall|a: int, b: int| 0 <= a < b < post.nodes@.len()
                implies post.nodes@[a].0 != post.nodes@[b].0 by {
                let a0 = if a < i2 as int { a } else { a + 1 };
                let b0 = if b < i2 as int { b } else { b + 1 };
                assert(post.nodes@[a] == cur2.nodes@[a0]);
                assert(post.nodes@[b] == cur2.nodes@[b0]);
            }
            assert forall|j: int| 0 <= j < post.nodes@.len()
                implies (#[trigger] post.nodes@[j].1.neighbors@).no_duplicates()
                    && post.nodes@[j].0 < post.id_context@ by {
                let j0 = if j < i2 as int { j } else { j + 1 };
                assert(post.nodes@[j] == cur2.nodes@[j0]);
            }
            assert(post.wf());
            // Final link map: exactly the links not touching the node.
            lemma_adjacency_consistency(cur2, idr, idr);
            assert(post.spec_links() =~= links_not_touching(pre.spec_links(), idr)) by {
                assert forall|k: (u64, u64)| #[trigger] post.spec_links().contains_key(k)
                    implies pre.spec_links().contains_key(k) && k.0 != idr && k.1 != idr by {
                    if k.0 == idr || k.1 == idr {
                        let x: u64 = if k.0 == idr { k.1 } else { k.0 };
                        assert(k == norm_pair(idr, x));
                        lemma_adjacency_consistency(pre, idr, x);
                        assert(pre.spec_neighbors()[idr].contains(x));
                        assert(own@.to_set().contains(x));
                        let q = choose|q: int| 0 <= q < own@.len() && own@[q] == x;
                        assert(norm_pair(idr, own@[q]) == k);
                    }
                }
                assert forall|k: (u64, u64)| pre.spec_links().contains_key(k)
                    && k.0 != idr && k.1 != idr
                    implies #[trigger] post.spec_links().contains_key(k) by {
                    if exists|q: int| 0 <= q < own@.len()
                        && k == norm_pair(idr, #[trigger] own@[q]) {
                        let q = choose|q: int| 0 <= q < own@.len()
                            && k == norm_pair(idr, #[trigger] own@[q]);
                        assert(norm_pair(idr, own@[q]).0 == idr
                            || norm_pair(idr, own@[q]).1 == idr);
                    }
                }
            }
            // Final adjacency map: the node's entry dropped, the node taken
            // out of every remaining set.
            assert(post.spec_neighbors() =~= neighbors_pruned(pre.spec_neighbors(), idr)) by {
                assert forall|n2: u64| #[trigger] post.spec_neighbors().contains_key(n2)
                    implies post.spec_neighbors()[n2]
                        =~= pre.spec_neighbors()[n2].remove(idr) by {
                    assert(cur2.spec_neighbors().contains_key(n2));
                    if own@.take(own@.len() as int).contains(n2) {
                        assert(own@.take(own@.len() as int) =~= own@);
                    } else {
                        assert(!own@.to_set().contains(n2));
                        assert(!pre.spec_neighbors()[idr].contains(n2));
                        lemma_neighbors_dom(pre, n2);
                        lemma_adjacency_consistency(pre, n2, idr);
                        lemma_adjacency_consistency(pre, idr, n2);
                        assert(!pre.spec_neighbors()[n2].contains(idr));
                        assert(pre.spec_neighbors()[n2].remove(idr)
                            =~= pre.spec_neighbors()[n2]);
                    }
                }
            }
            // The removed payloads are the cascaded links' payloads.
            assert(own@.to_set().len() == own@.len()) by {
                own@.unique_seq_to_set();
            }
            assert(cascade_values(pre.spec_links(), idr, own@, removed@));
            assert(own@.to_set() == pre.spec_neighbors()[idr]);
            assert(Self::node_removed(pre, post, idr, entry2.value, removed@));
        }
        Some((entry2.value, removed))
    }

    /// The node is present and has no neighbours.
    pub open spec fn spec_is_orphaned(self, n: u64) -> bool {
        self.spec_nodes().contains_key(n) && self.spec_neighbors()[n] =~= Set::<u64>::empty()
    }

    /// Filtering keeps only members of the original sequence, and keeps a
    /// duplicate-free sequence duplicate-free.
    proof fn lemma_filter_members(s: Seq<(u64, NodeEntry<Node>)>,
        pred: spec_fn((u64, NodeEntry<Node>)) -> bool)
        ensures
            forall|j: int| 0 <= j < s.filter(pred).len()
                ==> s.contains(#[trigger] s.filter(pred)[j]),
            s.no_duplicates() ==> s.filter(pred).no_duplicates(),
        decreases s.len(),
    {
        reveal(Seq::filter);
        if s.len() > 0 {
            let rest = s.drop_last();
            Self::lemma_filter_members(rest, pred);
            assert forall|j: int| 0 <= j < s.filter(pred).len()
                implies s.contains(#[trigger] s.filter(pred)[j]) by {
                if pred(s.last()) && j == s.filter(pred).len() - 1 {
                    assert(s[s.len() - 1] == s.filter(pred)[j]);
                } else {
                    assert(s.filter(pred)[j] == rest.filter(pred)[j]);
                    assert(rest.contains(rest.filter(pred)[j]));
                    let i = choose|i: int| 0 <= i < rest.len() && rest[i] == s.filter(pred)[j];
                    assert(s[i] == s.filter(pred)[j]);
                }
            }
            if s.no_duplicates() {
                assert(rest.no_duplicates()) by {
                    assert(forall|a: int, b: int| 0 <= a < b < rest.len()
                        ==> s[a] != s[b]);
                }
                if pred(s.last()) {
                    assert(!rest.filter(pred).contains(s.last())) by {
                        if rest.filter(pred).contains(s.last()) {
                            let j = choose|j: int| 0 <= j < rest.filter(pred).len()
                                && rest.filter(pred)[j] == s.last();
                            assert(rest.contains(s.last()));
                            let i = choose|i: int| 0 <= i < rest.len()
                                && rest[i] == s.last();
                            assert(s[i] == s[s.len() - 1]);
                        }
                    }
                    assert forall|a: int, b: int|
                        0 <= a < b < s.filter(pred).len()
                        implies s.filter(pred)[a] != s.filter(pred)[b] by {
                        if b < s.filter(pred).len() - 1 {
                            assert(rest.filter(pred)[a] != rest.filter(pred)[b]);
                        } else {
                            assert(s.filter(pred)[b] == s.last());
                            if s.filter(pred)[a] == s.last() {
                                assert(rest.filter(pred).contains(s.last()));
                            }
                        }
                    }
                }
            }
        }
    }

    /// Keeps exactly the node entries that have at least one neighbour.
    spec fn keep_linked() -> spec_fn((u64, NodeEntry<Node>)) -> bool {
        |e: (u64, NodeEntry<Node>)| e.1.neighbors@.len() != 0
    }

    /// Removes every node that has no links. Nodes with at least one link,
    /// and all links, are left untouched.
    #[verifier::rlimit(50)]
    pub fn remove_orphaned_nodes(&mut self)
        requires
            old(self).wf(),
        ensures
            final(self).wf(),
            final(self).next_raw() == old(self).next_raw(),
            final(self).spec_links() == old(self).spec_links(),
            final(self).spec_nodes() == Map::new(
                |n: u64| old(self).spec_nodes().contains_key(n)
                    && !old(self).spec_is_orphaned(n),
                |n: u64| old(self).spec_nodes()[n],
            ),
            final(self).spec_neighbors() == Map::new(
                |n: u64| old(self).spec_nodes().contains_key(n)
                    && !old(self).spec_is_orphaned(n),
                |n: u64| old(self).spec_neighbors()[n],
            ),
    {
        let ghost pre = *old(self);
        let ghost pred = Self::keep_linked();
        proof {
            pre.lemma_projections();
            lemma_assoc_map_dom(pre.node_pairs());
            lemma_assoc_map_dom(pre.neigh_pairs());
            assert(pre.nodes@.take(0).filter(pred) =~= Seq::<(u64, NodeEntry<Node>)>::empty())
                by {
                reveal(Seq::filter);
            }
        }
        let ghost n0 = pre.nodes@.len() as int;
        let ghost mut t: int = 0;
        let mut kept: Vec<(u64, NodeEntry<Node>)> = Vec::new();
        while self.nodes.len() > 0
            invariant
                pre == *old(self),
                pred == Self::keep_linked(),
                self.links@ == pre.links@,
                self.id_context == pre.id_context,
                n0 == pre.nodes@.len(),
                0 <= t <= n0,
                self.nodes@ == pre.nodes@.skip(t),
                kept@ == pre.nodes@.take(t).filter(pred),
            decreases self.nodes@.len(),
        {
            let entry = self.nodes.remove(0);
            proof {
                assert(entry == pre.nodes@.skip(t)[0]);
                assert(entry == pre.nodes@[t]);
                assert(self.nodes@ =~= pre.nodes@.skip(t + 1));
                assert(pre.nodes@.take(t + 1) =~= pre.nodes@.take(t) + seq![entry]);
                Seq::filter_distributes_over_add(pre.nodes@.take(t), seq![entry], pred);
                assert(seq![entry].filter(pred) =~= (if pred(entry) {
                    seq![entry]
                } else {
                    Seq::<(u64, NodeEntry<Node>)>::empty()
                })) by {
                    reveal_with_fuel(Seq::filter, 2);
                    assert(seq![entry].drop_last() =~= Seq::<(u64, NodeEntry<Node>)>::empty());
                    assert(seq![entry].last() == entry);
                }
            }
            if entry.1.neighbors.len() > 0 {
                proof {
                    assert(pred(entry));
                    assert(pre.nodes@.take(t + 1).filter(pred)
                        =~= pre.nodes@.take(t).filter(pred).push(entry));
                }
                kept.push(entry);
            } else {
                proof {
                    assert(!pred(entry));
                    assert(pre.nodes@.take(t + 1).filter(pred)
                        =~= pre.nodes@.take(t).filter(pred));
                }
            }
            proof {
                t = t + 1;
            }
        }
        self.nodes = kept;
        proof {
            let post = *self;
            assert(pre.nodes@.take(n0) =~= pre.nodes@);
            assert(post.nodes@ == pre.nodes@.filter(pred));
            post.lemma_projections();
            // Every kept entry is one of the original entries.
            assert forall|j: int| 0 <= j < post.nodes@.len()
                implies exists|i: int| 0 <= i < n0
                    && (#[trigger] post.nodes@[j]) == pre.nodes@[i]
                    && pre.nodes@[i].1.neighbors@.len() != 0 by {
                pre.nodes@.lemma_filter_pred(pred, j);
                Self::lemma_filter_members(pre.nodes@, pred);
                assert(pre.nodes@.contains(post.nodes@[j]));
                let i = choose|i: int| 0 <= i < pre.nodes@.len()
                    && pre.nodes@[i] == post.nodes@[j];
                assert(pred(pre.nodes@[i]));
            }
            // Distinct keys carry over to the kept entries.
            assert forall|a: int, b: int| 0 <= a < b < post.nodes@.len()
                implies post.nodes@[a].0 != post.nodes@[b].0 by {
                let ia = choose|i: int| 0 <= i < n0
                    && (#[trigger] post.nodes@[a]) == pre.nodes@[i]
                    && pre.nodes@[i].1.neighbors@.len() != 0;
                let ib = choose|i: int| 0 <= i < n0
                    && (#[trigger] post.nodes@[b]) == pre.nodes@[i]
                    && pre.nodes@[i].1.neighbors@.len() != 0;
                if ia == ib {
                    assert(pre.nodes@.no_duplicates()) by {
                        assert forall|x: int, y: int| 0 <= x < y < pre.nodes@.len()
                            implies pre.nodes@[x] != pre.nodes@[y] by {
                            assert(pre.nodes@[x].0 != pre.nodes@[y].0);
                        }
                    }
                    Self::lemma_filter_members(pre.nodes@, pred);
                    assert(post.nodes@[a] != post.nodes@[b]);
                }
            }
            // Well-formedness of the final state.
            assert forall|j: int, m: u64| 0 <= j < post.nodes@.len()
                implies ((#[trigger] post.nodes@[j].1.neighbors@.contains(m))
                    <==> has_key(post.links@, norm_pair(post.nodes@[j].0, m))) by {
                let i = choose|i: int| 0 <= i < n0
                    && (#[trigger] post.nodes@[j]) == pre.nodes@[i]
                    && pre.nodes@[i].1.neighbors@.len() != 0;
            }
            assert forall|j: int| 0 <= j < post.nodes@.len()
                implies (#[trigger] post.nodes@[j].1.neighbors@).no_duplicates()
                    && post.nodes@[j].0 < post.id_context@ by {
                let i = choose|i: int| 0 <= i < n0
                    && (#[trigger] post.nodes@[j]) == pre.nodes@[i]
                    && pre.nodes@[i].1.neighbors@.len() != 0;
            }
            assert(post.wf());
            lemma_assoc_map_dom(post.node_pairs());
            lemma_assoc_map_dom(post.neigh_pairs());
            // A node's adjacency set is empty exactly when its list is.
            assert forall|i: int| 0 <= i < n0
                implies ((#[trigger] pre.nodes@[i].1.neighbors@).len() != 0
                    <==> pre.nodes@[i].1.neighbors@.to_set()
                        != Set::<u64>::empty()) by {
                let s = pre.nodes@[i].1.neighbors@;
                if s.len() != 0 {
                    assert(s.to_set().contains(s[0]));
                } else {
                    assert(s.to_set() =~= Set::<u64>::empty());
                }
            }
            // Map-level statements, pointwise.
            assert forall|k: u64| #[trigger] post.node_has_key(k)
                implies pre.node_has_key(k)
                    && post.spec_nodes()[k] == pre.spec_nodes()[k]
                    && post.spec_neighbors()[k] == pre.spec_neighbors()[k]
                    && pre.spec_neighbors()[k] != Set::<u64>::empty() by {
                let j = choose|j: int| 0 <= j < post.nodes@.len() && post.nodes@[j].0 == k;
                let i = choose|i: int| 0 <= i < n0
                    && (#[trigger] post.nodes@[j]) == pre.nodes@[i]
                    && pre.nodes@[i].1.neighbors@.len() != 0;
                lemma_assoc_map_index(post.node_pairs(), j);
                lemma_assoc_map_index(post.neigh_pairs(), j);
                lemma_assoc_map_index(pre.node_pairs(), i);
                lemma_assoc_map_index(pre.neigh_pairs(), i);
            }
            assert forall|k: u64| pre.node_has_key(k)
                && pre.spec_neighbors()[k] != Set::<u64>::empty()
                implies #[trigger] post.node_has_key(k) by {
                let i = choose|i: int| 0 <= i < pre.nodes@.len() && pre.nodes@[i].0 == k;
                lemma_assoc_map_index(pre.neigh_pairs(), i);
                assert(pre.nodes@[i].1.neighbors@.len() != 0);
                assert(pred(pre.nodes@[i]));
                pre.nodes@.lemma_filter_contains(pred, i);
                assert(post.nodes@.contains(pre.nodes@[i]));
                let j = choose|j: int| 0 <= j < post.nodes@.len()
                    && post.nodes@[j] == pre.nodes@[i];
                assert(post.nodes@[j].0 == k);
            }
            assert(post.spec_nodes() =~= Map::new(
                |n: u64| pre.spec_nodes().contains_key(n) && !pre.spec_is_orphaned(n),
                |n: u64| pre.spec_nodes()[n],
            ));
            assert(post.spec_neighbors() =~= Map::new(
                |n: u64| pre.spec_nodes().contains_key(n) && !pre.spec_is_orphaned(n),
                |n: u64| pre.spec_neighbors()[n],
            ));
        }
    }

    /// Replaces the payload of an existing node, returning the previous
    /// payload. The node must exist; use [`Graph::get_node_value`] to check.
    pub fn set_node_value(&mut self, id: Id<Node>, value: Node) -> (r: Node)
        requires
            old(self).wf(),
            old(self).spec_nodes().contains_key(id@),
        ensures
            final(self).wf(),
            r == old(self).spec_nodes()[id@],
            final(self).spec_nodes() == old(self).spec_nodes().insert(id@, value),
            final(self).spec_neighbors() == old(self).spec_neighbors(),
            final(self).spec_links() == old(self).spec_links(),
            final(self).next_raw() == old(self).next_raw(),
    {
        proof {
            old(self).lemma_projections();
            lemma_assoc_map_dom(old(self).node_pairs());
            assert(old(self).node_has_key(id@));
        }
        let found = self.find_node(id.into_raw());
        proof {
            if found is None {
                let w = choose|w: int| 0 <= w < self.nodes@.len()
                    && self.nodes@[w].0 == id@;
                assert(self.nodes@[w].0 == id@);
            }
        }
        let i = found.unwrap();
        let ghost pre = *old(self);
        proof {
            lemma_assoc_map_index(pre.node_pairs(), i as int);
            lemma_assoc_map_index(pre.neigh_pairs(), i as int);
            lemma_keys_unique_remove(pre.node_pairs(), i as int);
            lemma_keys_unique_remove(pre.neigh_pairs(), i as int);
            lemma_assoc_map_remove(pre.node_pairs(), i as int);
            lemma_assoc_map_remove(pre.neigh_pairs(), i as int);
        }
        let (k, entry) = self.nodes.remove(i);
        let previous = entry.value;
        self.nodes.push((k, NodeEntry { value, neighbors: entry.neighbors }));
        proof {
            let post = *self;
            let n = pre.nodes@.len();
            assert(post.node_pairs() =~= pre.node_pairs().remove(i as int).push((k, value)));
            assert(post.neigh_pairs() =~= pre.neigh_pairs().remove(i as int)
                .push((k, pre.nodes@[i as int].1.neighbors@.to_set())));
            lemma_assoc_map_push(pre.node_pairs().remove(i as int), k, value);
            lemma_assoc_map_push(pre.neigh_pairs().remove(i as int), k,
                pre.nodes@[i as int].1.neighbors@.to_set());
            assert(post.spec_nodes() =~= pre.spec_nodes().insert(id@, value));
            assert(post.spec_neighbors() =~= pre.spec_neighbors());
            // Well-formedness: the entries are the old ones, re-ordered, with
            // one payload swapped.
            assert forall|p: int, q: int| 0 <= p < q < post.nodes@.len()
                implies post.nodes@[p].0 != post.nodes@[q].0 by {
                let p0 = if p < i as int { p } else if p < n - 1 { p + 1 } else { i as int };
                let q0 = if q < i as int { q } else if q < n - 1 { q + 1 } else { i as int };
                assert(post.nodes@[p].0 == pre.nodes@[p0].0);
                assert(post.nodes@[q].0 == pre.nodes@[q0].0);
                assert(p0 != q0);
            }
            assert forall|j: int, m: u64| 0 <= j < post.nodes@.len()
                implies ((#[trigger] post.nodes@[j].1.neighbors@.contains(m))
                    <==> has_key(post.links@, norm_pair(post.nodes@[j].0, m))) by {
                let j0 = if j < i as int { j } else if j < n - 1 { j + 1 } else { i as int };
                assert(post.nodes@[j].0 == pre.nodes@[j0].0);
                assert(post.nodes@[j].1.neighbors@ == pre.nodes@[j0].1.neighbors@);
            }
            assert forall|j: int| 0 <= j < post.nodes@.len()
                implies (#[trigger] post.nodes@[j].1.neighbors@).no_duplicates()
                    && post.nodes@[j].0 < post.id_context@ by {
                let j0 = if j < i as int { j } else if j < n - 1 { j + 1 } else { i as int };
                assert(post.nodes@[j].0 == pre.nodes@[j0].0);
                assert(post.nodes@[j].1.neighbors@ == pre.nodes@[j0].1.neighbors@);
            }
            assert(post.wf());
        }
        previous
    }

    /// Replaces the payload of an existing link, returning the previous
    /// payload. The link must exist; use [`Graph::get_link_value`] to check.
    pub fn set_link_value(&mut self, nodes: (Id<Node>, Id<Node>), value: Link) -> (r: Link)
        requires
            old(self).wf(),
            old(self).spec_links().contains_key(norm_pair(nodes.0@, nodes.1@)),
        ensures
            final(self).wf(),
            r == old(self).spec_links()[norm_pair(nodes.0@, nodes.1@)],
            final(self).spec_links() == old(self).spec_links()
                .insert(norm_pair(nodes.0@, nodes.1@), value),
            final(self).spec_nodes() == old(self).spec_nodes(),
            final(self).spec_neighbors() == old(self).spec_neighbors(),
            final(self).next_raw() == old(self).next_raw(),
    {
        proof {
            lemma_assoc_map_dom(old(self).links@);
        }
        let (ra, rb) = (nodes.0.into_raw(), nodes.1.into_raw());
        let key = if ra <= rb { (ra, rb) } else { (rb, ra) };
        let found = self.find_link(key);
        proof {
            if found is None {
                assert(!has_key(self.links@, key));
            }
        }
        let i = found.unwrap();
        proof {
            lemma_assoc_map_index(old(self).links@, i as int);
            lemma_keys_unique_remove(old(self).links@, i as int);
            lemma_assoc_map_remove(old(self).links@, i as int);
            lemma_has_key_remove(old(self).links@, i as int);
        }
        let previous = self.links.remove(i);
        proof {
            lemma_keys_unique_push(self.links@, key, value);
            lemma_assoc_map_push(self.links@, key, value);
        }
        self.links.push((key, value));
        proof {
            assert(self.spec_links() =~= old(self).spec_links().insert(key, value));
            lemma_has_key_push(old(self).links@.remove(i as int), key, value);
            assert forall|k: (u64, u64)| #[trigger] has_key(self.links@, k)
                implies has_key(old(self).links@, k) by {
            }
            assert forall|k: (u64, u64)| #[trigger] has_key(old(self).links@, k)
                implies has_key(self.links@, k) by {
            }
            let n1 = self.links@.len();
            assert forall|p: int| 0 <= p < n1
                implies (#[trigger] self.links@[p].0).0 < self.links@[p].0.1
                    && self.links@[p].0.0 < self.id_context@
                    && self.links@[p].0.1 < self.id_context@ by {
                if p < n1 - 1 {
                    let p0 = if p < i as int { p } else { p + 1 };
                    assert(self.links@[p] == old(self).links@[p0]);
                } else {
                    assert(self.links@[p].0 == old(self).links@[i as int].0);
                }
            }
            assert(self.wf());
        }
        previous.1
    }

    /// The identifiers of all stored nodes, in storage order.
    pub fn nodes_ids(&self) -> (r: Vec<Id<Node>>)
        requires
            self.wf(),
        ensures
            r@.len() == self.spec_nodes().dom().len(),
            forall|i: int| 0 <= i < r@.len()
                ==> self.spec_nodes().contains_key((#[trigger] r@[i])@),
            forall|k: u64| #[trigger] self.spec_nodes().contains_key(k)
                ==> exists|i: int| 0 <= i < r@.len() && r@[i]@ == k,
            forall|i: int, j: int| 0 <= i < j < r@.len() ==> r@[i]@ != r@[j]@,
    {
        proof {
            self.lemma_projections();
            lemma_assoc_map_dom(self.node_pairs());
            lemma_assoc_map_len(self.node_pairs());
        }
        let mut out: Vec<Id<Node>> = Vec::new();
        let mut i: usize = 0;
        while i < self.nodes.len()
            invariant
                i <= self.nodes@.len(),
                out@.len() == i,
                forall|p: int| 0 <= p < i ==> (#[trigger] out@[p])@ == self.nodes@[p].0,
            decreases self.nodes@.len() - i,
        {
            out.push(Id::from_raw(self.nodes[i].0));
            i = i + 1;
        }
        proof {
            assert forall|k: u64| #[trigger] self.spec_nodes().contains_key(k)
                implies exists|p: int| 0 <= p < out@.len() && out@[p]@ == k by {
                let p = choose|p: int| 0 <= p < self.nodes@.len() && self.nodes@[p].0 == k;
                assert(out@[p]@ == k);
            }
        }
        out
    }

    /// The unordered identifier pairs of all stored links, in storage order.
    pub fn links_ids(&self) -> (r: Vec<IdPair<Node>>)
        requires
            self.wf(),
        ensures
            r@.len() == self.spec_links().dom().len(),
            forall|i: int| 0 <= i < r@.len() ==> self.spec_links().contains_key(
                ((#[trigger] r@[i]).min_spec()@, r@[i].max_spec()@)),
            forall|i: int| 0 <= i < r@.len() ==> self.spec_links()
                .contains_key(norm_pair((#[trigger] r@[i]).min_spec()@, r@[i].max_spec()@)),
            forall|k: (u64, u64)| #[trigger] self.spec_links().contains_key(k)
                ==> exists|i: int| 0 <= i < r@.len()
                    && ((#[trigger] r@[i]).min_spec()@, r@[i].max_spec()@) == k,
    {
        proof {
            lemma_assoc_map_dom(self.links@);
            lemma_assoc_map_len(self.links@);
            self.lemma_links_sorted();
        }
        let mut out: Vec<IdPair<Node>> = Vec::new();
        let mut i: usize = 0;
        while i < self.links.len()
            invariant
                self.wf(),
                i <= self.links@.len(),
                out@.len() == i,
                forall|p: int| 0 <= p < i
                    ==> ((#[trigger] out@[p]).min_spec()@, out@[p].max_spec()@)
                        == self.links@[p].0,
            decreases self.links@.len() - i,
        {
            let (a, b) = (self.links[i].0.0, self.links[i].0.1);
            proof {
                assert(self.links@[i as int].0.0 < self.links@[i as int].0.1);
            }
            let pair = UOrd::new(Id::from_raw(a), Id::from_raw(b));
            proof {
                assert(pair.min_spec()@ == a && pair.max_spec()@ == b);
            }
            out.push(pair);
            i = i + 1;
        }
        proof {
            assert forall|k: (u64, u64)| #[trigger] self.spec_links().contains_key(k)
                implies exists|p: int| 0 <= p < out@.len()
                    && ((#[trigger] out@[p]).min_spec()@, out@[p].max_spec()@) == k by {
                let p = choose|p: int| 0 <= p < self.links@.len() && self.links@[p].0 == k;
                assert(((out@[p]).min_spec()@, out@[p].max_spec()@) == k);
            }
            assert forall|p: int| 0 <= p < out@.len()
                implies self.spec_links().contains_key(
                    norm_pair((#[trigger] out@[p]).min_spec()@, out@[p].max_spec()@)) by {
                assert(norm_pair(out@[p].min_spec()@, out@[p].max_spec()@)
                    == self.links@[p].0);
            }
        }
        out
    }

    /// The stored nodes, as (identifier, payload reference) pairs in storage
    /// order.
    pub fn nodes(&self) -> (r: Vec<(Id<Node>, &Node)>)
        requires
            self.wf(),
        ensures
            r@.len() == self.spec_nodes().dom().len(),
            forall|i: int| 0 <= i < r@.len()
                ==> self.spec_nodes().contains_key((#[trigger] r@[i]).0@)
                    && *r@[i].1 == self.spec_nodes()[r@[i].0@],
            forall|k: u64| #[trigger] self.spec_nodes().contains_key(k)
                ==> exists|i: int| 0 <= i < r@.len() && (#[trigger] r@[i]).0@ == k,
            forall|i: int, j: int| 0 <= i < j < r@.len() ==> r@[i].0@ != r@[j].0@,
    {
        proof {
            self.lemma_projections();
            lemma_assoc_map_dom(self.node_pairs());
            lemma_assoc_map_len(self.node_pairs());
        }
        let mut out: Vec<(Id<Node>, &Node)> = Vec::new();
        let mut i: usize = 0;
        while i < self.nodes.len()
            invariant
                i <= self.nodes@.len(),
                out@.len() == i,
                forall|p: int| 0 <= p < i ==> (#[trigger] out@[p]).0@ == self.nodes@[p].0
                    && *out@[p].1 == self.nodes@[p].1.value,
            decreases self.nodes@.len() - i,
        {
            out.push((Id::from_raw(self.nodes[i].0), &self.nodes[i].1.value));
            i = i + 1;
        }
        proof {
            assert forall|p: int| 0 <= p < out@.len()
                implies self.spec_nodes().contains_key((#[trigger] out@[p]).0@)
                    && *out@[p].1 == self.spec_nodes()[out@[p].0@] by {
                lemma_assoc_map_index(self.node_pairs(), p);
            }
            assert forall|k: u64| #[trigger] self.spec_nodes().contains_key(k)
                implies exists|p: int| 0 <= p < out@.len() && (#[trigger] out@[p]).0@ == k by {
                let p = choose|p: int| 0 <= p < self.nodes@.len() && self.nodes@[p].0 == k;
                assert(out@[p].0@ == k);
            }
        }
        out
    }

    /// The stored links, as (identifier pair, payload reference) pairs in
    /// storage order.
    pub fn links(&self) -> (r: Vec<(IdPair<Node>, &Link)>)
        requires
            self.wf(),
        ensures
            r@.len() == self.spec_links().dom().len(),
            forall|i: int| 0 <= i < r@.len()
                ==> self.spec_links().contains_key(
                    ((#[trigger] r@[i]).0.min_spec()@, r@[i].0.max_spec()@))
                    && *r@[i].1 == self.spec_links()[
                        (r@[i].0.min_spec()@, r@[i].0.max_spec()@)],
            forall|k: (u64, u64)| #[trigger] self.spec_links().contains_key(k)
                ==> exists|i: int| 0 <= i < r@.len()
                    && ((#[trigger] r@[i]).0.min_spec()@, r@[i].0.max_spec()@) == k,
    {
        proof {
            lemma_assoc_map_dom(self.links@);
            lemma_assoc_map_len(self.links@);
            self.lemma_links_sorted();
        }
        let mut out: Vec<(IdPair<Node>, &Link)> = Vec::new();
        let mut i: usize = 0;
        while i < self.links.len()
            invariant
                self.wf(),
                i <= self.links@.len(),
                out@.len() == i,
                forall|p: int| 0 <= p < i
                    ==> ((#[trigger] out@[p]).0.min_spec()@, out@[p].0.max_spec()@)
                        == self.links@[p].0
                        && *out@[p].1 == self.links@[p].1,
            decreases self.links@.len() - i,
        {
            let (a, b) = (self.links[i].0.0, self.links[i].0.1);
            proof {
                assert(self.links@[i as int].0.0 < self.links@[i as int].0.1);
            }
            let pair = UOrd::new(Id::from_raw(a), Id::from_raw(b));
            out.push((pair, &self.links[i].1));
            i = i + 1;
        }
        proof {
            assert forall|p: int| 0 <= p < out@.len()
                implies self.spec_links().contains_key(
                    ((#[trigger] out@[p]).0.min_spec()@, out@[p].0.max_spec()@))
                    && *out@[p].1 == self.spec_links()[
                        (out@[p].0.min_spec()@, out@[p].0.max_spec()@)] by {
                lemma_assoc_map_index(self.links@, p);
            }
            assert forall|k: (u64, u64)| #[trigger] self.spec_links().contains_key(k)
                implies exists|p: int| 0 <= p < out@.len()
                    && ((#[trigger] out@[p]).0.min_spec()@, out@[p].0.max_spec()@) == k by {
                let p = choose|p: int| 0 <= p < self.links@.len() && self.links@[p].0 == k;
                assert((out@[p].0.min_spec()@, out@[p].0.max_spec()@) == k);
            }
        }
        out
    }

    /// The link map after a batch of links is applied in order, each with
    /// the semantics of a single [`Graph::add_link`] call: later entries for
    /// the same pair overwrite earlier ones.
    pub open spec fn links_after(
        m: Map<(u64, u64), Link>,
        items: Seq<((Id<Node>, Id<Node>), Link)>,
    ) -> Map<(u64, u64), Link>
        decreases items.len(),
    {
        if items.len() == 0 {
            m
        } else {
            Self::links_after(m, items.drop_last())
                .insert(norm_pair(items.last().0.0@, items.last().0.1@), items.last().1)
        }
    }

    /// Adds many links from a sequence of (identifier pair, payload) items,
    /// one at a time, with the same semantics as single `add_link` calls.
    /// The adjacency sets follow from the final link map, as
    /// [`lemma_adjacency_consistency`] states.
    pub fn extend(&mut self, items: Vec<((Id<Node>, Id<Node>), Link)>)
        requires
            old(self).wf(),
            forall|q: int| 0 <= q < items@.len()
                ==> ((#[trigger] items@[q]).0.0@ != items@[q].0.1@
                    && old(self).spec_nodes().contains_key(items@[q].0.0@)
                    && old(self).spec_nodes().contains_key(items@[q].0.1@)),
        ensures
            final(self).wf(),
            final(self).spec_nodes() == old(self).spec_nodes(),
            final(self).next_raw() == old(self).next_raw(),
            final(self).spec_links()
                == Self::links_after(old(self).spec_links(), items@),
    {
        let ghost all = items@;
        let mut items = items;
        let ghost mut t: int = 0;
        while items.len() > 0
            invariant
                0 <= t <= all.len(),
                items@ == all.skip(t),
                forall|q: int| 0 <= q < all.len()
                    ==> ((#[trigger] all[q]).0.0@ != all[q].0.1@
                        && old(self).spec_nodes().contains_key(all[q].0.0@)
                        && old(self).spec_nodes().contains_key(all[q].0.1@)),
                self.wf(),
                self.spec_nodes() == old(self).spec_nodes(),
                self.next_raw() == old(self).next_raw(),
                self.spec_links()
                    == Self::links_after(old(self).spec_links(), all.take(t)),
            decreases items@.len(),
        {
            let (pair, value) = items.remove(0);
            proof {
                assert(all.skip(t)[0] == all[t]);
                assert((pair, value) == all[t]);
                assert(items@ =~= all.skip(t + 1));
            }
            self.add_link(value, pair);
            proof {
                assert(all.take(t + 1).drop_last() =~= all.take(t));
                assert(all.take(t + 1).last() == all[t]);
                t = t + 1;
            }
        }
        proof {
            assert(all.take(t) =~= all);
        }
    }

    /// Consumes the graph into its persisted representation: the node
    /// payloads keyed by raw identifier, and the link payloads keyed by
    /// sorted raw identifier pair. Adjacency sets are derived data and are
    /// not part of it.
    pub fn into_raw_parts(self) -> (r: (Vec<(u64, Node)>, Vec<((u64, u64), Link)>))
        requires
            self.wf(),
        ensures
            keys_unique(r.0@),
            assoc_map(r.0@) == self.spec_nodes(),
            keys_unique(r.1@),
            assoc_map(r.1@) == self.spec_links(),
            forall|i: int| 0 <= i < r.0@.len() ==> (#[trigger] r.0@[i]).0 < u64::MAX,
            forall|i: int| 0 <= i < r.1@.len()
                ==> (#[trigger] r.1@[i].0).0 < r.1@[i].0.1 && r.1@[i].0.1 < u64::MAX,
    {
        let ghost pre = self;
        proof {
            pre.lemma_projections();
        }
        let mut g = self;
        let mut out_nodes: Vec<(u64, Node)> = Vec::new();
        let ghost mut t: int = 0;
        while g.nodes.len() > 0
            invariant
                pre.wf(),
                0 <= t <= pre.nodes@.len(),
                g.nodes@ == pre.nodes@.skip(t),
                g.links@ == pre.links@,
                out_nodes@ == pre.node_pairs().take(t),
            decreases g.nodes@.len(),
        {
            let (k, entry) = g.nodes.remove(0);
            proof {
                assert((k, entry) == pre.nodes@[t]);
                assert(g.nodes@ =~= pre.nodes@.skip(t + 1));
                pre.lemma_projections();
                assert(out_nodes@.push((k, entry.value)) =~= pre.node_pairs().take(t + 1));
            }
            out_nodes.push((k, entry.value));
            proof {
                t = t + 1;
            }
        }
        proof {
            assert(out_nodes@ =~= pre.node_pairs());
        }
        let out_links = g.links;
        proof {
            assert(out_links@ == pre.links@);
        }
        (out_nodes, out_links)
    }

    /// Reconstructs a graph from its persisted representation: stores the
    /// node and link entries as given (later duplicates of a key overwrite
    /// earlier ones, and link keys are normalised), rebuilds every present
    /// node's adjacency set by scanning the link keys, and resumes the
    /// identifier counter beyond every identifier seen. A link key joining
    /// an identifier to itself is refused; a link whose endpoints have no
    /// node entry is accepted as-is.
    #[verifier::rlimit(100)]
    pub fn from_raw_parts(
        nodes: Vec<(u64, Node)>,
        links: Vec<((u64, u64), Link)>,
    ) -> (r: Result<Graph<Node, Link>, GraphDecodeError>)
        requires
            forall|i: int| 0 <= i < nodes@.len() ==> (#[trigger] nodes@[i]).0 < u64::MAX,
            forall|i: int| 0 <= i < links@.len()
                ==> (#[trigger] links@[i].0).0 < u64::MAX && links@[i].0.1 < u64::MAX,
        ensures
            match r {
                Ok(g) => g.wf()
                    && (forall|i: int| 0 <= i < links@.len()
                        ==> (#[trigger] links@[i].0).0 != links@[i].0.1)
                    && g.spec_nodes() == assoc_map(nodes@)
                    && g.spec_links() == assoc_map(normalize_links(links@))
                    && g.next_raw() == resume_after_links(resume_after_nodes(nodes@), links@),
                Err(e) => e == GraphDecodeError::SelfLink && has_self_pair(links@),
            },
    {
        let ghost nodes0 = nodes@;
        let ghost links0 = links@;
        // Re-derive the identifier counter's resume point.
        let mut next: u64 = 0;
        let mut i: usize = 0;
        while i < nodes.len()
            invariant
                nodes@ == nodes0,
                forall|q: int| 0 <= q < nodes0.len() ==> (#[trigger] nodes0[q]).0 < u64::MAX,
                i <= nodes0.len(),
                next == resume_after_nodes(nodes0.take(i as int)),
                forall|q: int| 0 <= q < i ==> (#[trigger] nodes0[q]).0 < next,
            decreases nodes0.len() - i,
        {
            proof {
                assert(nodes0.take(i + 1).drop_last() =~= nodes0.take(i as int));
            }
            let k = nodes[i].0;
            if k >= next {
                next = k + 1;
            }
            i = i + 1;
        }
        proof {
            assert(nodes0.take(nodes0.len() as int) =~= nodes0);
        }
        let ghost c0 = next;
        let mut i: usize = 0;
        while i < links.len()
            invariant
                links@ == links0,
                forall|q: int| 0 <= q < links0.len()
                    ==> (#[trigger] links0[q].0).0 < u64::MAX && links0[q].0.1 < u64::MAX,
                i <= links0.len(),
                next == resume_after_links(c0, links0.take(i as int)),
                c0 <= next,
                forall|q: int| 0 <= q < i
                    ==> (#[trigger] links0[q].0).0 < next && links0[q].0.1 < next,
            decreases links0.len() - i,
        {
            proof {
                assert(links0.take(i + 1).drop_last() =~= links0.take(i as int));
            }
            let (a, b) = (links[i].0.0, links[i].0.1);
            if a >= next {
                next = a + 1;
            }
            if b >= next {
                next = b + 1;
            }
            i = i + 1;
        }
        proof {
            assert(links0.take(links0.len() as int) =~= links0);
        }
        let ghost resume = next;
        // Refuse self-links: the data model forbids a link from a node to
        // itself.
        let mut i: usize = 0;
        while i < links.len()
            invariant
                links@ == links0,
                i <= links0.len(),
                forall|q: int| 0 <= q < i ==> (#[trigger] links0[q]).0.0 != links0[q].0.1,
            decreases links0.len() - i,
        {
            if links[i].0.0 == links[i].0.1 {
                proof {
                    assert((#[trigger] links@[i as int]).0.0 == links@[i as int].0.1);
                    assert(has_self_pair(links@));
                }
                return Err(GraphDecodeError::SelfLink);
            }
            i = i + 1;
        }
        // Store the link entries under normalised keys; a later entry for a
        // pair overwrites an earlier one.
        let mut rest_links = links;
        let mut lvec: Vec<((u64, u64), Link)> = Vec::new();
        let ghost mut t: int = 0;
        while rest_links.len() > 0
            invariant
                0 <= t <= links0.len(),
                rest_links@ == links0.skip(t),
                forall|q: int| 0 <= q < links0.len()
                    ==> (#[trigger] links0[q].0).0 < resume && links0[q].0.1 < resume,
                forall|q: int| 0 <= q < links0.len()
                    ==> (#[trigger] links0[q].0).0 != links0[q].0.1,
                keys_unique(lvec@),
                forall|q: int| 0 <= q < lvec@.len()
                    ==> (#[trigger] lvec@[q].0).0 < lvec@[q].0.1
                        && lvec@[q].0.1 < resume,
                assoc_map(lvec@) == assoc_map(normalize_links(links0.take(t))),
            decreases rest_links@.len(),
        {
            let (kp, v) = rest_links.remove(0);
            proof {
                assert((kp, v) == links0[t]);
                assert(rest_links@ =~= links0.skip(t + 1));
            }
            let key = if kp.0 <= kp.1 { (kp.0, kp.1) } else { (kp.1, kp.0) };
            proof {
                assert(kp.0 != kp.1);
            }
            let ghost l0 = lvec@;
            proof {
                lemma_assoc_map_dom(l0);
            }
            let mut w: usize = 0;
            while w < lvec.len() && !(lvec[w].0.0 == key.0 && lvec[w].0.1 == key.1)
                invariant
                    w <= lvec@.len(),
                    lvec@ == l0,
                    forall|q: int| 0 <= q < w ==> (#[trigger] l0[q]).0 != key,
                decreases lvec@.len() - w,
            {
                w = w + 1;
            }
            if w < lvec.len() {
                proof {
                    lemma_keys_unique_remove(l0, w as int);
                    lemma_assoc_map_remove(l0, w as int);
                }
                let _replaced = lvec.remove(w);
            } else {
                proof {
                    assert(!has_key(l0, key));
                }
            }
            let ghost l1 = lvec@;
            proof {
                lemma_keys_unique_push(l1, key, v);
                lemma_assoc_map_push(l1, key, v);
            }
            lvec.push((key, v));
            proof {
                assert(assoc_map(lvec@) =~= assoc_map(l0).insert(key, v));
                assert(normalize_links(links0.take(t + 1))
                    =~= normalize_links(links0.take(t)).push((key, v)));
                lemma_assoc_map_push(normalize_links(links0.take(t)), key, v);
                t = t + 1;
            }
        }
        proof {
            assert(links0.take(links0.len() as int) =~= links0);
        }
        // Store the node entries with empty adjacency lists; a later entry
        // for a key overwrites an earlier one.
        let mut rest_nodes = nodes;
        let mut nvec: Vec<(u64, NodeEntry<Node>)> = Vec::new();
        let ghost mut t: int = 0;
        while rest_nodes.len() > 0
            invariant
                0 <= t <= nodes0.len(),
                rest_nodes@ == nodes0.skip(t),
                forall|q: int| 0 <= q < nodes0.len() ==> (#[trigger] nodes0[q]).0 < resume,
                forall|a: int, b: int| 0 <= a < b < nvec@.len()
                    ==> nvec@[a].0 != nvec@[b].0,
                forall|q: int| 0 <= q < nvec@.len()
                    ==> (#[trigger] nvec@[q]).0 < resume
                        && nvec@[q].1.neighbors@ =~= Seq::<u64>::empty(),
                assoc_map(nvec@.map_values(|e: (u64, NodeEntry<Node>)| (e.0, e.1.value)))
                    == assoc_map(nodes0.take(t)),
            decreases rest_nodes@.len(),
        {
            let (k, v) = rest_nodes.remove(0);
            proof {
                assert((k, v) == nodes0[t]);
                assert(rest_nodes@ =~= nodes0.skip(t + 1));
            }
            let ghost n0v = nvec@;
            let ghost proj0 = n0v.map_values(|e: (u64, NodeEntry<Node>)| (e.0, e.1.value));
            proof {
                assert(forall|a: int, b: int| 0 <= a < b < proj0.len()
                    ==> proj0[a].0 != proj0[b].0);
                lemma_assoc_map_dom(proj0);
            }
            let mut w: usize = 0;
            while w < nvec.len() && nvec[w].0 != k
                invariant
                    w <= nvec@.len(),
                    nvec@ == n0v,
                    forall|q: int| 0 <= q < w ==> (#[trigger] n0v[q]).0 != k,
                decreases nvec@.len() - w,
            {
                w = w + 1;
            }
            if w < nvec.len() {
                proof {
                    lemma_keys_unique_remove(proj0, w as int);
                    lemma_assoc_map_remove(proj0, w as int);
                }
                let _replaced = nvec.remove(w);
                proof {
                    assert(nvec@.map_values(|e: (u64, NodeEntry<Node>)| (e.0, e.1.value))
                        =~= proj0.remove(w as int));
                }
            } else {
                proof {
                    assert(!has_key(proj0, k)) by {
                        if has_key(proj0, k) {
                            let q = choose|q: int| 0 <= q < proj0.len() && proj0[q].0 == k;
                            assert(n0v[q].0 == k);
                        }
                    }
                }
            }
            let ghost n1v = nvec@;
            let ghost proj1 = n1v.map_values(|e: (u64, NodeEntry<Node>)| (e.0, e.1.value));
            proof {
                lemma_keys_unique_push(proj1, k, v);
                lemma_assoc_map_push(proj1, k, v);
            }
            nvec.push((k, NodeEntry { value: v, neighbors: Vec::new() }));
            proof {
                assert(nvec@.map_values(|e: (u64, NodeEntry<Node>)| (e.0, e.1.value))
                    =~= proj1.push((k, v)));
                assert(assoc_map(nvec@.map_values(
                    |e: (u64, NodeEntry<Node>)| (e.0, e.1.value)))
                    =~= assoc_map(proj0).insert(k, v));
                assert forall|a: int, b: int| 0 <= a < b < nvec@.len()
                    implies nvec@[a].0 != nvec@[b].0 by {
                    assert(proj1.push((k, v))[a].0 == nvec@[a].0);
                    assert(proj1.push((k, v))[b].0 == nvec@[b].0);
                    assert(keys_unique(proj1.push((k, v))));
                }
                lemma_assoc_map_push(nodes0.take(t), k, v);
                assert(nodes0.take(t + 1) =~= nodes0.take(t).push((k, v)));
                t = t + 1;
            }
        }
        proof {
            assert(nodes0.take(nodes0.len() as int) =~= nodes0);
        }
        // Assemble and rebuild every node's adjacency list from the links.
        let mut g = Graph {
            id_context: IdContext::with_current_id(next),
            nodes: nvec,
            links: lvec,
        };
        let ghost gl = g.links@;
        let ghost gnodes0 = g.nodes@;
        proof {
            g.lemma_projections();
        }
        let mut t: usize = 0;
        while t < g.links.len()
            invariant
                g.links@ == gl,
                g.id_context@ == resume,
                keys_unique(gl),
                forall|q: int| 0 <= q < gl.len()
                    ==> (#[trigger] gl[q].0).0 < gl[q].0.1 && gl[q].0.1 < resume,
                t <= gl.len(),
                g.nodes_distinct(),
                forall|q: int| 0 <= q < g.nodes@.len()
                    ==> (#[trigger] g.nodes@[q]).0 < resume,
                forall|k: u64| #[trigger] g.node_has_key(k) <==> has_key(
                    gnodes0.map_values(|e: (u64, NodeEntry<Node>)| (e.0, e.1.value)), k),
                g.spec_nodes() == assoc_map(
                    gnodes0.map_values(|e: (u64, NodeEntry<Node>)| (e.0, e.1.value))),
                forall|j: int| 0 <= j < g.nodes@.len()
                    ==> (#[trigger] g.nodes@[j].1.neighbors@).no_duplicates(),
                forall|j: int, m: u64| 0 <= j < g.nodes@.len()
                    ==> ((#[trigger] g.nodes@[j].1.neighbors@.contains(m))
                        <==> has_key(gl.take(t as int),
                            norm_pair(g.nodes@[j].0, m))),
            decreases gl.len() - t,
        {
            let (a, b) = (g.links[t].0.0, g.links[t].0.1);
            let ghost st0 = g;
            proof {
                assert(gl[t as int].0 == (a, b));
                assert(a < b);
            }
            match g.find_node(a) {
                Some(fa) => {
                    proof {
                        assert(g.nodes@[fa as int].0 == a);
                        assert(g.node_has_key(a));
                        // `b` is not yet a recorded neighbour of `a`.
                        assert forall|j: int| 0 <= j < g.nodes@.len()
                            && (#[trigger] g.nodes@[j]).0 == a
                            implies !g.nodes@[j].1.neighbors@.contains(b) by {
                            if g.nodes@[j].1.neighbors@.contains(b) {
                                assert(has_key(gl.take(t as int), norm_pair(a, b)));
                                let q = choose|q: int| 0 <= q < t
                                    && gl.take(t as int)[q].0 == norm_pair(a, b);
                                assert(gl[q].0 == gl[t as int].0);
                            }
                        }
                    }
                    g.add_neighbor_entry(a, b);
                    proof {
                        Self::lemma_neighbors_updated_maps(st0, g, a, b);
                    }
                }
                None => {
                }
            }
            let ghost st1 = g;
            match g.find_node(b) {
                Some(fb) => {
                    proof {
                        assert(g.nodes@[fb as int].0 == b);
                        assert(g.node_has_key(b));
                        assert forall|j: int| 0 <= j < g.nodes@.len()
                            && (#[trigger] g.nodes@[j]).0 == b
                            implies !g.nodes@[j].1.neighbors@.contains(a) by {
                            if st0.node_has_key(a) {
                                let p = choose|p: int| 0 <= p < st0.nodes@.len()
                                    && (#[trigger] st0.nodes@[p]) == st1.nodes@[j];
                                if st1.nodes@[j].1.neighbors@.contains(a) {
                                    assert(has_key(gl.take(t as int), norm_pair(b, a)));
                                    let q = choose|q: int| 0 <= q < t
                                        && gl.take(t as int)[q].0 == norm_pair(b, a);
                                    assert(gl[q].0 == gl[t as int].0);
                                }
                            } else {
                                if st1.nodes@[j].1.neighbors@.contains(a) {
                                    assert(has_key(gl.take(t as int), norm_pair(b, a)));
                                    let q = choose|q: int| 0 <= q < t
                                        && gl.take(t as int)[q].0 == norm_pair(b, a);
                                    assert(gl[q].0 == gl[t as int].0);
                                }
                            }
                        }
                    }
                    g.add_neighbor_entry(b, a);
                    proof {
                        Self::lemma_neighbors_updated_maps(st1, g, b, a);
                    }
                }
                None => {
                }
            }
            proof {
                let post = g;
                // Entry-wise characterisation against the loop-top state.
                assert forall|j: int| #![trigger post.nodes@[j]] 0 <= j < post.nodes@.len()
                    implies (if post.nodes@[j].0 == a {
                        exists|i: int| 0 <= i < st0.nodes@.len()
                            && (#[trigger] st0.nodes@[i]).0 == a
                            && post.nodes@[j].1.neighbors@
                                == st0.nodes@[i].1.neighbors@.push(b)
                    } else if post.nodes@[j].0 == b {
                        exists|i: int| 0 <= i < st0.nodes@.len()
                            && (#[trigger] st0.nodes@[i]).0 == b
                            && post.nodes@[j].1.neighbors@
                                == st0.nodes@[i].1.neighbors@.push(a)
                    } else {
                        exists|i: int| 0 <= i < st0.nodes@.len()
                            && (#[trigger] st0.nodes@[i]) == post.nodes@[j]
                    }) by {
                    if post.nodes@[j].0 == b && st1.node_has_key(b) {
                        let p = choose|p: int| 0 <= p < st1.nodes@.len()
                            && (#[trigger] st1.nodes@[p]).0 == b
                            && post.nodes@[j].1.value == st1.nodes@[p].1.value
                            && post.nodes@[j].1.neighbors@
                                == st1.nodes@[p].1.neighbors@.push(a);
                        if st0.node_has_key(a) {
                            let q = choose|q: int| 0 <= q < st0.nodes@.len()
                                && (#[trigger] st0.nodes@[q]) == st1.nodes@[p];
                        }
                    } else if post.nodes@[j].0 == a {
                        if st1.node_has_key(b) {
                            let p = choose|p: int| 0 <= p < st1.nodes@.len()
                                && (#[trigger] st1.nodes@[p]) == post.nodes@[j];
                            if st0.node_has_key(a) {
                                let q = choose|q: int| 0 <= q < st0.nodes@.len()
                                    && (#[trigger] st0.nodes@[q]).0 == a
                                    && st1.nodes@[p].1.value == st0.nodes@[q].1.value
                                    && st1.nodes@[p].1.neighbors@
                                        == st0.nodes@[q].1.neighbors@.push(b);
                            }
                        } else {
                            if st0.node_has_key(a) {
                                let q = choose|q: int| 0 <= q < st0.nodes@.len()
                                    && (#[trigger] st0.nodes@[q]).0 == a
                                    && post.nodes@[j].1.value == st0.nodes@[q].1.value
                                    && post.nodes@[j].1.neighbors@
                                        == st0.nodes@[q].1.neighbors@.push(b);
                            }
                        }
                    } else {
                        if st1.node_has_key(b) {
                            let p = choose|p: int| 0 <= p < st1.nodes@.len()
                                && (#[trigger] st1.nodes@[p]) == post.nodes@[j];
                            if st0.node_has_key(a) {
                                let q = choose|q: int| 0 <= q < st0.nodes@.len()
                                    && (#[trigger] st0.nodes@[q]) == st1.nodes@[p];
                            }
                        } else {
                            if st0.node_has_key(a) {
                                let q = choose|q: int| 0 <= q < st0.nodes@.len()
                                    && (#[trigger] st0.nodes@[q]) == post.nodes@[j];
                            }
                        }
                    }
                }
                // The adjacency built so far extends to the next link.
                assert forall|j: int, m: u64| 0 <= j < post.nodes@.len()
                    implies ((#[trigger] post.nodes@[j].1.neighbors@.contains(m))
                        <==> has_key(gl.take(t + 1),
                            norm_pair(post.nodes@[j].0, m))) by {
                    let k2 = post.nodes@[j].0;
                    assert forall|kk: (u64, u64)| #[trigger] has_key(gl.take(t + 1), kk)
                        <==> (has_key(gl.take(t as int), kk) || kk == gl[t as int].0) by {
                        if has_key(gl.take(t + 1), kk) {
                            let q = choose|q: int|
                                0 <= q < t + 1 && (#[trigger] gl.take(t + 1)[q]).0 == kk;
                            if q < t {
                                assert(gl.take(t as int)[q].0 == kk);
                            }
                        }
                        if has_key(gl.take(t as int), kk) {
                            let q = choose|q: int| 0 <= q < t
                                && gl.take(t as int)[q].0 == kk;
                            assert(gl.take(t + 1)[q].0 == kk);
                        }
                        if kk == gl[t as int].0 {
                            assert(gl.take(t + 1)[t as int].0 == kk);
                        }
                    }
                    if k2 == a {
                        let i = choose|i: int| 0 <= i < st0.nodes@.len()
                            && (#[trigger] st0.nodes@[i]).0 == a
                            && post.nodes@[j].1.neighbors@
                                == st0.nodes@[i].1.neighbors@.push(b);
                        let sn = st0.nodes@[i].1.neighbors@;
                        assert(sn.contains(m)
                            <==> has_key(gl.take(t as int), norm_pair(a, m)));
                        assert(post.nodes@[j].1.neighbors@.contains(m)
                            <==> (sn.contains(m) || m == b)) by {
                            if post.nodes@[j].1.neighbors@.contains(m) {
                                let w = choose|w: int| 0 <= w < sn.push(b).len()
                                    && sn.push(b)[w] == m;
                                if w < sn.len() {
                                    assert(sn[w] == m);
                                }
                            }
                            if sn.contains(m) {
                                let w = choose|w: int| 0 <= w < sn.len() && sn[w] == m;
                                assert(sn.push(b)[w] == m);
                            }
                            if m == b {
                                assert(sn.push(b)[sn.len() as int] == m);
                            }
                        }
                        if m == b {
                            assert(norm_pair(a, m) == gl[t as int].0);
                        } else {
                            assert(norm_pair(a, m) != gl[t as int].0);
                        }
                    } else if k2 == b {
                        let i = choose|i: int| 0 <= i < st0.nodes@.len()
                            && (#[trigger] st0.nodes@[i]).0 == b
                            && post.nodes@[j].1.neighbors@
                                == st0.nodes@[i].1.neighbors@.push(a);
                        let sn = st0.nodes@[i].1.neighbors@;
                        assert(sn.contains(m)
                            <==> has_key(gl.take(t as int), norm_pair(b, m)));
                        assert(post.nodes@[j].1.neighbors@.contains(m)
                            <==> (sn.contains(m) || m == a)) by {
                            if post.nodes@[j].1.neighbors@.contains(m) {
                                let w = choose|w: int| 0 <= w < sn.push(a).len()
                                    && sn.push(a)[w] == m;
                                if w < sn.len() {
                                    assert(sn[w] == m);
                                }
                            }
                            if sn.contains(m) {
                                let w = choose|w: int| 0 <= w < sn.len() && sn[w] == m;
                                assert(sn.push(a)[w] == m);
                            }
                            if m == a {
                                assert(sn.push(a)[sn.len() as int] == m);
                            }
                        }
                        if m == a {
                            assert(norm_pair(b, m) == gl[t as int].0);
                        } else {
                            assert(norm_pair(b, m) != gl[t as int].0);
                        }
                    } else {
                        let i = choose|i: int| 0 <= i < st0.nodes@.len()
                            && (#[trigger] st0.nodes@[i]) == post.nodes@[j];
                        assert(post.nodes@[j].1.neighbors@.contains(m)
                            <==> has_key(gl.take(t as int), norm_pair(k2, m)));
                        assert(norm_pair(k2, m) != gl[t as int].0);
                    }
                }
                // Adjacency lists stay duplicate-free, keys stay bounded.
                assert forall|j: int| 0 <= j < post.nodes@.len()
                    implies (#[trigger] post.nodes@[j].1.neighbors@).no_duplicates()
                        && post.nodes@[j].0 < resume by {
                    let k2 = post.nodes@[j].0;
                    if k2 == a || k2 == b {
                        let other: u64 = if k2 == a { b } else { a };
                        let i = choose|i: int| 0 <= i < st0.nodes@.len()
                            && (#[trigger] st0.nodes@[i]).0 == k2
                            && post.nodes@[j].1.neighbors@
                                == st0.nodes@[i].1.neighbors@.push(other);
                        let sn = st0.nodes@[i].1.neighbors@;
                        assert(!sn.contains(other)) by {
                            if sn.contains(other) {
                                assert(has_key(gl.take(t as int), norm_pair(k2, other)));
                                let q = choose|q: int| 0 <= q < t
                                    && gl.take(t as int)[q].0 == norm_pair(k2, other);
                                assert(norm_pair(k2, other) == gl[t as int].0);
                                assert(gl[q].0 == gl[t as int].0);
                            }
                        }
                        assert forall|x: int, y: int| 0 <= x < y < sn.push(other).len()
                            implies sn.push(other)[x] != sn.push(other)[y] by {
                            if y < sn.len() {
                                assert(sn[x] != sn[y]);
                            } else {
                                assert(sn.push(other)[x] == sn[x]);
                                if sn[x] == other {
                                    assert(sn.contains(other));
                                }
                            }
                        }
                    } else {
                        let i = choose|i: int| 0 <= i < st0.nodes@.len()
                            && (#[trigger] st0.nodes@[i]) == post.nodes@[j];
                    }
                }
            }
            t = t + 1;
        }
        proof {
            assert(gl.take(gl.len() as int) =~= gl);
            assert(g.wf());
        }
        Ok(g)
    }

    /// The number of nodes that the given node is linked to, or `None` if no
    /// node exists for the given identifier.
    pub fn node_neighbors_count(&self, id: Id<Node>) -> (r: Option<usize>)
        requires
            self.wf(),
        ensures
            match r {
                Some(c) => self.spec_nodes().contains_key(id@)
                    && c == self.spec_neighbors()[id@].len(),
                None => !self.spec_nodes().contains_key(id@),
            },
    {
        proof {
            self.lemma_projections();
            lemma_assoc_map_dom(self.node_pairs());
        }
        match self.find_node(id.into_raw()) {
            Some(i) => {
                proof {
                    lemma_assoc_map_index(self.neigh_pairs(), i as int);
                    self.nodes@[i as int].1.neighbors@.unique_seq_to_set();
                }
                Some(self.nodes[i].1.neighbors.len())
            }
            None => None,
        }
    }

    /// The identifiers of the nodes that the given node is linked to, or
    /// `None` if no node exists for the given identifier.
    pub fn get_node_neighbors(&self, id: Id<Node>) -> (r: Option<Vec<Id<Node>>>)
        requires
            self.wf(),
        ensures
            match r {
                Some(v) => self.spec_nodes().contains_key(id@)
                    && v@.map_values(|x: Id<Node>| x@).to_set() == self.spec_neighbors()[id@]
                    && v@.map_values(|x: Id<Node>| x@).no_duplicates()
                    && v@.len() == self.spec_neighbors()[id@].len(),
                None => !self.spec_nodes().contains_key(id@),
            },
    {
        proof {
            self.lemma_projections();
            lemma_assoc_map_dom(self.node_pairs());
        }
        match self.find_node(id.into_raw()) {
            Some(i) => {
                proof {
                    lemma_assoc_map_index(self.neigh_pairs(), i as int);
                }
                let entry_neighbors = &self.nodes[i].1.neighbors;
                let mut out: Vec<Id<Node>> = Vec::new();
                let mut p: usize = 0;
                while p < entry_neighbors.len()
                    invariant
                        p <= entry_neighbors@.len(),
                        out@.len() == p,
                        forall|q: int| 0 <= q < p
                            ==> (#[trigger] out@[q])@ == entry_neighbors@[q],
                    decreases entry_neighbors@.len() - p,
                {
                    out.push(Id::from_raw(entry_neighbors[p]));
                    p = p + 1;
                }
                proof {
                    let raws = out@.map_values(|x: Id<Node>| x@);
                    assert(raws =~= self.nodes@[i as int].1.neighbors@);
                    raws.unique_seq_to_set();
                }
                Some(out)
            }
            None => None,
        }
    }

    /// A reference to the payload of the link keyed by the given pair of
    /// identifiers, if it exists.
    pub fn get_link_value(&self, nodes: (Id<Node>, Id<Node>)) -> (r: Option<&Link>)
        requires
            self.wf(),
        ensures
            match r {
                Some(v) => self.spec_links().contains_key(norm_pair(nodes.0@, nodes.1@))
                    && *v == self.spec_links()[norm_pair(nodes.0@, nodes.1@)],
                None => !self.spec_links().contains_key(norm_pair(nodes.0@, nodes.1@)),
            },
    {
        proof {
            lemma_assoc_map_dom(self.links@);
        }
        let (a, b) = (nodes.0.into_raw(), nodes.1.into_raw());
        let key = if a <= b { (a, b) } else { (b, a) };
        match self.find_link(key) {
            Some(i) => {
                proof {
                    lemma_assoc_map_index(self.links@, i as int);
                }
                Some(&self.links[i].1)
            }
            None => None,
        }
    }
}

impl<Node, Link> Default for Graph<Node, Link> {
    /// The default graph is empty, with a context counting from zero.
    fn default() -> (r: Graph<Node, Link>)
        ensures
            r.wf(),
            r.spec_nodes() == Map::<u64, Node>::empty(),
            r.spec_neighbors() == Map::<u64, Set<u64>>::empty(),
            r.spec_links() == Map::<(u64, u64), Link>::empty(),
            r.next_raw() == 0,
    {
        Graph::new()
    }
}

/// Why reconstructing a graph from raw parts was refused.
#[derive(Clone, Copy, Debug, PartialEq, Eq)]
pub enum GraphDecodeError {
    /// A link key joined a node identifier to itself; self-links are
    /// forbidden by the data model.
    SelfLink,
}

/// Some link entry joins a node identifier to itself.
pub open spec fn has_self_pair<Link>(s: Seq<((u64, u64), Link)>) -> bool {
    exists|i: int| 0 <= i < s.len() && (#[trigger] s[i]).0.0 == s[i].0.1
}

/// Link entries with each key sorted, as reconstruction stores them.
pub open spec fn normalize_links<Link>(s: Seq<((u64, u64), Link)>) -> Seq<((u64, u64), Link)> {
    s.map_values(|p: ((u64, u64), Link)| (norm_pair(p.0.0, p.0.1), p.1))
}

/// The identifier counter after scanning the node entries, starting from
/// zero: one more than the greatest key seen, or the running value where the
/// keys stay below it.
pub open spec fn resume_after_nodes<Node>(s: Seq<(u64, Node)>) -> u64
    decreases s.len(),
{
    if s.len() == 0 {
        0
    } else {
        let c = resume_after_nodes(s.drop_last());
        if s.last().0 >= c {
            (s.last().0 + 1) as u64
        } else {
            c
        }
    }
}

/// The identifier counter after also scanning every link key, so that
/// subsequently minted identifiers never collide with persisted ones.
pub open spec fn resume_after_links<Link>(c0: u64, s: Seq<((u64, u64), Link)>) -> u64
    decreases s.len(),
{
    if s.len() == 0 {
        c0
    } else {
        let c = resume_after_links(c0, s.drop_last());
        let c1: u64 = if s.last().0.0 >= c {
            (s.last().0.0 + 1) as u64
        } else {
            c
        };
        if s.last().0.1 >= c1 {
            (s.last().0.1 + 1) as u64
        } else {
            c1
        }
    }
}

/// The links not touching the node `n`: what a cascade that removes `n`
/// leaves of the link map.
pub open spec fn links_not_touching<Link>(m: Map<(u64, u64), Link>, n: u64)
    -> Map<(u64, u64), Link> {
    Map::new(|k: (u64, u64)| m.contains_key(k) && k.0 != n && k.1 != n, |k: (u64, u64)| m[k])
}

/// The adjacency sets after the node `n` is gone: its own entry dropped,
/// and `n` taken out of every remaining set.
pub open spec fn neighbors_pruned(m: Map<u64, Set<u64>>, n: u64) -> Map<u64, Set<u64>> {
    Map::new(|k: u64| m.contains_key(k) && k != n, |k: u64| m[k].remove(n))
}

/// The payloads `vals` are those of the links that join `n` to the nodes
/// listed by `ms`, in that order.
pub open spec fn cascade_values<Link>(
    links: Map<(u64, u64), Link>,
    n: u64,
    ms: Seq<u64>,
    vals: Seq<Link>,
) -> bool {
    &&& vals.len() == ms.len()
    &&& ms.no_duplicates()
    &&& forall|q: int| 0 <= q < ms.len() ==> vals[q] == links[norm_pair(n, #[trigger] ms[q])]
}

/// The adjacency/link consistency invariant, for every reachable graph: a
/// well-formed graph records `m` as a neighbour of a present node `n`
/// exactly when it stores a link keyed by the unordered pair of `n` and `m`.
/// Every constructor establishes `wf` and every operation preserves it, so
/// this holds after every mutating call.
pub proof fn lemma_adjacency_consistency<Node, Link>(g: Graph<Node, Link>, n: u64, m: u64)
    requires
        g.wf(),
        g.spec_nodes().contains_key(n),
    ensures
        g.spec_neighbors().contains_key(n),
        g.spec_neighbors()[n].contains(m) <==> g.spec_links().contains_key(norm_pair(n, m)),
{
    g.lemma_projections();
    lemma_assoc_map_dom(g.node_pairs());
    lemma_assoc_map_dom(g.neigh_pairs());
    lemma_assoc_map_dom(g.links@);
    assert(g.node_has_key(n));
    let j = choose|j: int| 0 <= j < g.nodes@.len() && g.nodes@[j].0 == n;
    lemma_assoc_map_index(g.neigh_pairs(), j);
    assert(g.spec_neighbors()[n] == g.nodes@[j].1.neighbors@.to_set());
    assert(g.nodes@[j].1.neighbors@.contains(m)
        <==> has_key(g.links@, norm_pair(n, m)));
    if g.spec_neighbors()[n].contains(m) {
        assert(g.nodes@[j].1.neighbors@.contains(m));
    }
    if g.nodes@[j].1.neighbors@.contains(m) {
        assert(g.nodes@[j].1.neighbors@.to_set().contains(m));
    }
}

/// Idempotent re-link: adding a link for a pair that was just linked
/// replaces only the payload. The first call reports no previous link, the
/// second returns the first payload, adjacency is unchanged by the second
/// call, and a subsequent lookup for the pair yields the second payload.
pub proof fn lemma_relink_idempotent<Node, Link>(
    g0: Graph<Node, Link>,
    g1: Graph<Node, Link>,
    g2: Graph<Node, Link>,
    a: u64,
    b: u64,
    p1: Link,
    p2: Link,
    r1: Option<Link>,
    r2: Option<Link>,
)
    requires
        !g0.spec_links().contains_key(norm_pair(a, b)),
        Graph::link_added(g0, g1, a, b, p1, r1),
        Graph::link_added(g1, g2, a, b, p2, r2),
    ensures
        r1 == None::<Link>,
        r2 == Some(p1),
        g2.spec_neighbors() == g1.spec_neighbors(),
        g2.spec_links().contains_key(norm_pair(a, b)),
        g2.spec_links()[norm_pair(a, b)] == p2,
        g2.spec_nodes() == g0.spec_nodes(),
{
    assert(g1.spec_links().contains_key(norm_pair(a, b)));
    assert(g1.spec_links()[norm_pair(a, b)] == p1);
}

/// Round-trip: rebuilding a graph from the raw parts of a well-formed graph
/// is never refused (the parts hold no self-pair) and yields identical node
/// and link payload maps. The adjacency sets, which are recomputed from the
/// links rather than persisted, agree as well.
pub proof fn lemma_raw_parts_round_trip<Node, Link>(
    g: Graph<Node, Link>,
    nodes: Seq<(u64, Node)>,
    links: Seq<((u64, u64), Link)>,
    g2: Graph<Node, Link>,
)
    requires
        g.wf(),
        g2.wf(),
        assoc_map(nodes) == g.spec_nodes(),
        assoc_map(links) == g.spec_links(),
        forall|i: int| 0 <= i < links.len() ==> (#[trigger] links[i].0).0 < links[i].0.1,
        g2.spec_nodes() == assoc_map(nodes),
        g2.spec_links() == assoc_map(normalize_links(links)),
    ensures
        !has_self_pair(links),
        g2.spec_nodes() == g.spec_nodes(),
        g2.spec_links() == g.spec_links(),
        forall|n: u64| #[trigger] g.spec_nodes().contains_key(n)
            ==> g2.spec_neighbors().contains_key(n)
                && g2.spec_neighbors()[n] == g.spec_neighbors()[n],
{
    assert(normalize_links(links) =~= links);
    assert forall|n: u64| #[trigger] g.spec_nodes().contains_key(n)
        implies g2.spec_neighbors().contains_key(n)
            && g2.spec_neighbors()[n] == g.spec_neighbors()[n] by {
        lemma_neighbors_dom(g, n);
        lemma_neighbors_dom(g2, n);
        assert forall|m: u64| g2.spec_neighbors()[n].contains(m)
            <==> g.spec_neighbors()[n].contains(m) by {
            lemma_adjacency_consistency(g, n, m);
            lemma_adjacency_consistency(g2, n, m);
        }
        assert(g2.spec_neighbors()[n] =~= g.spec_neighbors()[n]);
    }
}

/// A present node always has an adjacency set: the adjacency map and the
/// node map share their domain.
pub proof fn lemma_neighbors_dom<Node, Link>(g: Graph<Node, Link>, n: u64)
    ensures
        g.spec_neighbors().contains_key(n) <==> g.spec_nodes().contains_key(n),
{
    g.lemma_projections();
    lemma_assoc_map_dom(g.node_pairs());
    lemma_assoc_map_dom(g.neigh_pairs());
}

} // verus!
