//! Undirected simple graph over string-named entities, stored as an
//! adjacency structure and modelled as a map from node name to the set of
//! adjacent node names.

use crate::assoc::{
    assoc_map, contains_name, key_seq, lemma_assoc_map_at, lemma_assoc_map_dom,
    lemma_assoc_map_len, lemma_assoc_map_push, name_seq, name_set,
};
use vstd::prelude::*;

verus! {

/// The mathematical model of a graph: each node name maps to the set of
/// names adjacent to it.
pub type GraphView = Map<Seq<char>, Set<Seq<char>>>;

/// The adjacency set of `u`, with a missing node read as an empty set.
pub open spec fn adj_of(g: GraphView, u: Seq<char>) -> Set<Seq<char>> {
    if g.dom().contains(u) {
        g[u]
    } else {
        Set::empty()
    }
}

/// Every edge runs both ways: whenever `b` stands in `a`'s adjacency set,
/// `a` stands in `b`'s.
pub open spec fn symmetric(g: GraphView) -> bool {
    forall|a: Seq<char>, b: Seq<char>|
        #[trigger] adj_of(g, a).contains(b) ==> adj_of(g, b).contains(a)
}

/// Insertion of the undirected edge `(u, v)`: `v` joins `u`'s adjacency
/// set and `u` joins `v`'s, with missing adjacency sets created empty.
pub open spec fn add_edge_map(g: GraphView, u: Seq<char>, v: Seq<char>) -> GraphView {
    let g1 = g.insert(u, adj_of(g, u).insert(v));
    g1.insert(v, adj_of(g1, v).insert(u))
}

/// The name pairs of a sequence of string pairs.
pub open spec fn pair_views(s: Seq<(String, String)>) -> Seq<(Seq<char>, Seq<char>)> {
    s.map_values(|p: (String, String)| (p.0@, p.1@))
}

/// The graph obtained by folding `add_edge_map` over an edge list,
/// starting from the empty graph.
pub open spec fn graph_of_edges(es: Seq<(Seq<char>, Seq<char>)>) -> GraphView
    decreases es.len(),
{
    if es.len() == 0 {
        Map::empty()
    } else {
        add_edge_map(graph_of_edges(es.drop_last()), es.last().0, es.last().1)
    }
}

/// An undirected simple graph: an adjacency list per node, with node names
/// unique, neighbor lists duplicate-free, and edges symmetric.
pub struct Graph {
    pub(crate) adj: Vec<(String, Vec<String>)>,
}

/// The model entries of the stored adjacency lists.
pub(crate) open spec fn entry_views(s: Seq<(String, Vec<String>)>) -> Seq<
    (Seq<char>, Set<Seq<char>>),
> {
    s.map_values(|p: (String, Vec<String>)| (p.0@, name_set(p.1@)))
}

impl View for Graph {
    type V = GraphView;

    closed spec fn view(&self) -> GraphView {
        assoc_map(entry_views(self.adj@))
    }
}

impl Graph {
    /// The stored structure is a faithful representation of the model:
    /// node names are unique, neighbor lists carry no duplicates, and the
    /// modelled graph is symmetric.
    pub closed spec fn wf(&self) -> bool {
        &&& key_seq(entry_views(self.adj@)).no_duplicates()
        &&& (forall|i: int|
            0 <= i < self.adj@.len() ==> name_seq(#[trigger] self.adj@[i].1@).no_duplicates())
        &&& symmetric(self@)
    }

    /// The number of nodes the graph holds.
    pub closed spec fn node_count(&self) -> nat {
        self.adj@.len()
    }

    /// The graph's node names, in stored order.
    pub closed spec fn node_seq(&self) -> Seq<Seq<char>> {
        key_seq(entry_views(self.adj@))
    }

    /// The node sequence enumerates the node set exactly once.
    pub proof fn lemma_node_seq(&self)
        requires
            self.wf(),
        ensures
            self.node_seq().len() == self.node_count(),
            self.node_seq().no_duplicates(),
            forall|v: Seq<char>| self.node_seq().contains(v) <==> self@.dom().contains(v),
    {
        lemma_assoc_map_dom(entry_views(self.adj@));
    }

    /// The node sequence lists the stored entries' names in order.
    pub(crate) proof fn lemma_node_seq_entries(&self)
        ensures
            self.node_seq() == key_seq(entry_views(self.adj@)),
            self.node_seq().len() == self.adj@.len(),
            forall|i: int|
                0 <= i < self.adj@.len() ==> self.node_seq()[i] == #[trigger] self.adj@[i].0@,
    {
    }

    /// The parts of well-formedness that speak of the stored structure.
    pub(crate) proof fn lemma_wf_unfold(&self)
        requires
            self.wf(),
        ensures
            key_seq(entry_views(self.adj@)).no_duplicates(),
            forall|i: int|
                0 <= i < self.adj@.len() ==> name_seq(#[trigger] self.adj@[i].1@).no_duplicates(),
            symmetric(self@),
    {
    }

    /// A well-formed graph is symmetric, and its node set is finite with
    /// `node_count` elements.
    pub proof fn lemma_wf_props(&self)
        requires
            self.wf(),
        ensures
            symmetric(self@),
            self@.dom().finite(),
            self@.dom().len() == self.node_count(),
    {
        lemma_assoc_map_dom(entry_views(self.adj@));
        lemma_assoc_map_len(entry_views(self.adj@));
    }

    /// Symmetry of the adjacency relation: whenever `b` is adjacent to
    /// `a`, `a` is adjacent to `b`.
    pub proof fn lemma_symmetric_edges(&self, a: Seq<char>, b: Seq<char>)
        requires
            self.wf(),
            self@.dom().contains(a),
            self@[a].contains(b),
        ensures
            self@.dom().contains(b),
            self@[b].contains(a),
    {
        self.lemma_wf_props();
        assert(adj_of(self@, a).contains(b));
        assert(adj_of(self@, b).contains(a));
        assert(self@.dom().contains(b));
    }

    /// Each stored entry names a node of the model, whose adjacency set is
    /// exactly the stored neighbor list's name set.
    pub(crate) proof fn lemma_entry_value(&self, i: int)
        requires
            self.wf(),
            0 <= i < self.adj@.len(),
        ensures
            self@.dom().contains(self.adj@[i].0@),
            self@[self.adj@[i].0@] == name_set(self.adj@[i].1@),
    {
        assert(entry_views(self.adj@)[i] == (self.adj@[i].0@, name_set(self.adj@[i].1@)));
        lemma_assoc_map_at(entry_views(self.adj@), i);
    }

    /// Creates an empty graph.
    pub fn new() -> (g: Graph)
        ensures
            g.wf(),
            g@ == GraphView::empty(),
            g.node_count() == 0,
    {
        let g = Graph { adj: Vec::new() };
        proof {
            assert(entry_views(g.adj@).len() == 0);
        }
        g
    }

    /// The number of nodes the graph holds.
    pub fn num_nodes(&self) -> (n: usize)
        ensures
            n == self.node_count(),
    {
        self.adj.len()
    }

    /// Whether the graph has a node of the given name.
    pub fn contains_node(&self, name: &String) -> (b: bool)
        ensures
            b == self@.dom().contains(name@),
    {
        let r = self.find_entry(name);
        match r {
            Some(i) => {
                proof {
                    lemma_assoc_map_dom(entry_views(self.adj@));
                    assert(key_seq(entry_views(self.adj@))[i as int] == self.adj@[i as int].0@);
                    assert(key_seq(entry_views(self.adj@)).contains(name@));
                }
                true
            },
            None => false,
        }
    }

    /// The position of a node's entry in the stored adjacency structure.
    pub(crate) fn find_entry(&self, name: &String) -> (r: Option<usize>)
        ensures
            match r {
                Some(i) => i < self.adj@.len() && self.adj@[i as int].0@ == name@,
                None => !self@.dom().contains(name@),
            },
    {
        let mut i: usize = 0;
        while i < self.adj.len()
            invariant
                i <= self.adj@.len(),
                forall|j: int| 0 <= j < i ==> self.adj@[j].0@ != name@,
            decreases self.adj@.len() - i,
        {
            if self.adj[i].0 == *name {
                return Some(i);
            }
            i += 1;
        }
        proof {
            lemma_assoc_map_dom(entry_views(self.adj@));
            assert forall|j: int|
                0 <= j < key_seq(entry_views(self.adj@)).len() implies key_seq(
                entry_views(self.adj@),
            )[j] != name@ by {
                assert(key_seq(entry_views(self.adj@))[j] == self.adj@[j].0@);
            }
            assert(!key_seq(entry_views(self.adj@)).contains(name@));
            assert(!self@.dom().contains(name@));
        }
        None
    }

    /// Inserts `v` into `u`'s stored neighbor list, creating the entry if
    /// `u` is new; the model gains `v` in `u`'s adjacency set.
    fn insert_directed(&mut self, u: &String, v: &String)
        requires
            key_seq(entry_views(old(self).adj@)).no_duplicates(),
            forall|i: int|
                0 <= i < old(self).adj@.len() ==> name_seq(
                    #[trigger] old(self).adj@[i].1@,
                ).no_duplicates(),
        ensures
            key_seq(entry_views(final(self).adj@)).no_duplicates(),
            forall|i: int|
                0 <= i < final(self).adj@.len() ==> name_seq(
                    #[trigger] final(self).adj@[i].1@,
                ).no_duplicates(),
            final(self)@ == old(self)@.insert(u@, adj_of(old(self)@, u@).insert(v@)),
    {
        let ghost m0 = self@;
        let r = self.find_entry(u);
        match r {
            Some(i) => {
                proof {
                    lemma_assoc_map_at(entry_views(self.adj@), i as int);
                    assert(entry_views(self.adj@)[i as int] == (
                        self.adj@[i as int].0@,
                        name_set(self.adj@[i as int].1@),
                    ));
                }
                if contains_name(&self.adj[i].1, v) {
                    proof {
                        assert(adj_of(m0, u@).insert(v@) =~= adj_of(m0, u@));
                        assert(m0.insert(u@, adj_of(m0, u@).insert(v@)) =~= m0);
                    }
                } else {
                    let ghost entries0 = self.adj@;
                    self.adj[i].1.push(v.clone());
                    proof {
                        let entries1 = self.adj@;
                        assert(entries1 =~= entries0.update(
                            i as int,
                            (entries0[i as int].0, entries1[i as int].1),
                        ));
                        assert(name_seq(entries1[i as int].1@) =~= name_seq(
                            entries0[i as int].1@,
                        ).push(v@));
                        assert(!name_seq(entries0[i as int].1@).contains(v@));
                        assert(name_seq(entries1[i as int].1@).no_duplicates());
                        crate::assoc::lemma_to_set_push(name_seq(entries0[i as int].1@), v@);
                        assert(name_set(entries1[i as int].1@) =~= name_set(
                            entries0[i as int].1@,
                        ).insert(v@));
                        assert(key_seq(entry_views(entries1)) =~= key_seq(entry_views(entries0)));
                        lemma_assoc_update(
                            entry_views(entries0),
                            i as int,
                            name_set(entries1[i as int].1@),
                        );
                        assert(entry_views(entries1) =~= entry_views(entries0).update(
                            i as int,
                            (entries0[i as int].0@, name_set(entries1[i as int].1@)),
                        ));
                        assert(self@ == m0.insert(u@, adj_of(m0, u@).insert(v@)));
                    }
                }
            },
            None => {
                let mut list: Vec<String> = Vec::new();
                list.push(v.clone());
                let ghost entries0 = self.adj@;
                self.adj.push((u.clone(), list));
                proof {
                    let entries1 = self.adj@;
                    assert(entry_views(entries1) =~= entry_views(entries0).push(
                        (u@, name_set(entries1.last().1@)),
                    ));
                    lemma_assoc_map_push(
                        entry_views(entries0),
                        (u@, name_set(entries1.last().1@)),
                    );
                    assert(name_seq(entries1.last().1@) =~= Seq::empty().push(v@));
                    crate::assoc::lemma_to_set_push(Seq::empty(), v@);
                    assert(name_set(entries1.last().1@) =~= Set::empty().insert(v@));
                    assert(adj_of(m0, u@) =~= Set::<Seq<char>>::empty());
                    assert(self@ == m0.insert(u@, adj_of(m0, u@).insert(v@)));
                    lemma_assoc_map_dom(entry_views(entries0));
                    assert(key_seq(entry_views(entries1)) =~= key_seq(
                        entry_views(entries0),
                    ).push(u@));
                    assert forall|jj: int|
                        0 <= jj < key_seq(entry_views(entries0)).len() implies key_seq(
                        entry_views(entries0),
                    )[jj] != u@ by {
                        if key_seq(entry_views(entries0))[jj] == u@ {
                            assert(key_seq(entry_views(entries0)).contains(u@));
                        }
                    }
                    assert(key_seq(entry_views(entries1)).no_duplicates());
                    assert(forall|i: int|
                        0 <= i < entries0.len() ==> #[trigger] entries1[i] == entries0[i]);
                }
            },
        }
    }

    /// Inserts the undirected edge `(u, v)`: `v` joins `u`'s adjacency set
    /// and `u` joins `v`'s, with adjacency sets created on first
    /// reference. Idempotent; `u == v` is kept as a degenerate self-loop.
    pub fn add_edges(&mut self, u: String, v: String)
        requires
            old(self).wf(),
        ensures
            final(self).wf(),
            final(self)@ == add_edge_map(old(self)@, u@, v@),
            final(self)@.dom().contains(u@) && final(self)@[u@].contains(v@),
            final(self)@.dom().contains(v@) && final(self)@[v@].contains(u@),
    {
        let ghost m = self@;
        self.insert_directed(&u, &v);
        let ghost m1 = self@;
        self.insert_directed(&v, &u);
        proof {
            let m2 = self@;
            assert(m2 == add_edge_map(m, u@, v@));
            assert(m2[v@].contains(u@));
            if u@ == v@ {
                assert(m2[u@].contains(v@));
            } else {
                assert(m2[u@] == m1[u@]);
                assert(m1[u@].contains(v@));
            }
            lemma_add_edge_symmetric(m, u@, v@);
        }
    }

    /// Builds an undirected graph by folding `add_edges` over an edge
    /// list, starting from the empty graph.
    pub fn create_undirected(edges: &Vec<(String, String)>) -> (g: Graph)
        ensures
            g.wf(),
            g@ == graph_of_edges(pair_views(edges@)),
    {
        let mut g = Graph::new();
        let mut i: usize = 0;
        while i < edges.len()
            invariant
                i <= edges@.len(),
                g.wf(),
                g@ == graph_of_edges(pair_views(edges@).take(i as int)),
            decreases edges@.len() - i,
        {
            let u = edges[i].0.clone();
            let v = edges[i].1.clone();
            g.add_edges(u, v);
            proof {
                let pv = pair_views(edges@);
                assert(pv.take(i + 1).drop_last() =~= pv.take(i as int));
                assert(pv.take(i + 1).last() == pv[i as int]);
            }
            i += 1;
        }
        proof {
            assert(pair_views(edges@).take(edges@.len() as int) =~= pair_views(edges@));
        }
        g
    }
}

/// Updating one entry's value, under a distinct key sequence, denotes
/// insertion at that entry's key.
pub(crate) proof fn lemma_assoc_update<V>(s: Seq<(Seq<char>, V)>, i: int, val: V)
    requires
        key_seq(s).no_duplicates(),
        0 <= i < s.len(),
    ensures
        assoc_map(s.update(i, (s[i].0, val))) == assoc_map(s).insert(s[i].0, val),
    decreases s.len(),
{
    let t = s.update(i, (s[i].0, val));
    if i == s.len() - 1 {
        assert(t.drop_last() =~= s.drop_last());
        assert(assoc_map(t) == assoc_map(s.drop_last()).insert(s[i].0, val));
        assert(assoc_map(s.drop_last()).insert(s.last().0, s.last().1).insert(s[i].0, val)
            =~= assoc_map(s.drop_last()).insert(s[i].0, val));
    } else {
        assert(key_seq(s.drop_last()) =~= key_seq(s).drop_last());
        lemma_assoc_update(s.drop_last(), i, val);
        assert(t.drop_last() =~= s.drop_last().update(i, (s[i].0, val)));
        assert(t.last() == s.last());
        assert(key_seq(s)[i] != key_seq(s)[s.len() - 1]);
        assert(s[i].0 != s.last().0);
        assert(assoc_map(s.drop_last()).insert(s[i].0, val).insert(s.last().0, s.last().1)
            =~= assoc_map(s.drop_last()).insert(s.last().0, s.last().1).insert(s[i].0, val));
    }
}

/// Adding an edge to a symmetric graph leaves it symmetric.
pub proof fn lemma_add_edge_symmetric(g: GraphView, u: Seq<char>, v: Seq<char>)
    requires
        symmetric(g),
    ensures
        symmetric(add_edge_map(g, u, v)),
{
    let g1 = g.insert(u, adj_of(g, u).insert(v));
    let g2 = add_edge_map(g, u, v);
    assert(adj_of(g2, v) =~= adj_of(g1, v).insert(u));
    assert(adj_of(g1, v) =~= (if v == u {
        adj_of(g, u).insert(v)
    } else {
        adj_of(g, v)
    }));
    if u != v {
        assert(adj_of(g2, u) =~= adj_of(g, u).insert(v));
    }
    assert forall|x: Seq<char>| x != u && x != v implies adj_of(g2, x) =~= adj_of(g, x) by {}
    assert forall|a: Seq<char>, b: Seq<char>| #[trigger]
        adj_of(g2, a).contains(b) implies adj_of(g2, b).contains(a) by {
        if a == v {
            if b != u && b != v {
                if v == u {
                    assert(adj_of(g, u).contains(b));
                    assert(adj_of(g, b).contains(u));
                } else {
                    assert(adj_of(g, v).contains(b));
                    assert(adj_of(g, b).contains(v));
                }
                assert(adj_of(g2, b) =~= adj_of(g, b));
            }
        } else if a == u {
            if b != u && b != v {
                assert(adj_of(g, u).contains(b));
                assert(adj_of(g, b).contains(u));
                assert(adj_of(g2, b) =~= adj_of(g, b));
            }
        } else {
            assert(adj_of(g2, a) =~= adj_of(g, a));
            assert(adj_of(g, a).contains(b));
            assert(adj_of(g, b).contains(a));
            if b == u {
                assert(adj_of(g2, u).contains(a));
            } else if b == v {
                assert(adj_of(g2, v).contains(a));
            } else {
                assert(adj_of(g2, b) =~= adj_of(g, b));
            }
        }
    }
}

/// Adding the same edge twice leaves the graph unchanged: adjacency is a
/// set, so repeated insertion has no further effect.
pub proof fn lemma_add_edge_idempotent(g: GraphView, u: Seq<char>, v: Seq<char>)
    ensures
        add_edge_map(add_edge_map(g, u, v), u, v) == add_edge_map(g, u, v),
{
    let g1 = g.insert(u, adj_of(g, u).insert(v));
    let m1 = add_edge_map(g, u, v);
    assert(m1.dom().contains(v) && adj_of(m1, v).contains(u));
    assert(m1.dom().contains(u) && adj_of(m1, u).contains(v)) by {
        if u != v {
            assert(m1[u] == g1[u]);
        }
    }
    let t1 = m1.insert(u, adj_of(m1, u).insert(v));
    assert(adj_of(m1, u).insert(v) =~= m1[u]);
    assert(t1 =~= m1);
    assert(adj_of(t1, v).insert(u) =~= m1[v]) by {
        assert(adj_of(t1, v) =~= adj_of(m1, v));
    }
    assert(t1.insert(v, adj_of(t1, v).insert(u)) =~= m1);
    assert(add_edge_map(m1, u, v) == t1.insert(v, adj_of(t1, v).insert(u)));
}

} // verus!
