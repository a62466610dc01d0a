//! Single-source shortest paths by breadth-first search, and the
//! whole-graph average shortest-path length.

use crate::assoc::{
    assoc_map, key_seq, lemma_assoc_map_at, lemma_assoc_map_dom, lemma_assoc_map_push,
};
use crate::graph::{adj_of, symmetric, Graph, GraphView};
use vstd::prelude::*;
use vstd::set_lib::lemma_len_subset;

verus! {

/// The nodes within `k` steps of `src`: `src` itself, and every neighbor
/// of a node within `k - 1` steps.
pub open spec fn reach(g: GraphView, src: Seq<char>, k: nat) -> Set<Seq<char>>
    decreases k,
{
    if k == 0 {
        Set::empty().insert(src)
    } else {
        let prev = reach(g, src, (k - 1) as nat);
        prev.union(
            Set::new(
                |v: Seq<char>|
                    exists|u: Seq<char>| prev.contains(u) && #[trigger] adj_of(g, u).contains(v),
            ),
        )
    }
}

/// Whether `v` can be reached from `src` in any number of steps.
pub open spec fn reachable(g: GraphView, src: Seq<char>, v: Seq<char>) -> bool {
    exists|k: nat| reach(g, src, k).contains(v)
}

/// Whether `k` is the least number of steps that reaches `v` from `src`.
pub open spec fn is_least_dist(g: GraphView, src: Seq<char>, v: Seq<char>, k: nat) -> bool {
    reach(g, src, k).contains(v) && (forall|j: nat| j < k ==> !reach(g, src, j).contains(v))
}

/// The shortest-path distance from `src` to `v`; meaningful whenever `v`
/// is reachable from `src`.
pub open spec fn sdist(g: GraphView, src: Seq<char>, v: Seq<char>) -> nat {
    choose|k: nat| is_least_dist(g, src, v, k)
}

/// A node reached within `k` steps is reached within a least number of steps.
pub proof fn lemma_least_exists(g: GraphView, src: Seq<char>, v: Seq<char>, k: nat)
    requires
        reach(g, src, k).contains(v),
    ensures
        exists|d: nat| is_least_dist(g, src, v, d),
    decreases k,
{
    if exists|j: nat| j < k && reach(g, src, j).contains(v) {
        let j = choose|j: nat| j < k && reach(g, src, j).contains(v);
        lemma_least_exists(g, src, v, j);
    } else {
        assert(is_least_dist(g, src, v, k));
    }
}

/// Least step counts are unique.
pub proof fn lemma_least_unique(
    g: GraphView,
    src: Seq<char>,
    v: Seq<char>,
    k1: nat,
    k2: nat,
)
    requires
        is_least_dist(g, src, v, k1),
        is_least_dist(g, src, v, k2),
    ensures
        k1 == k2,
{
}

/// For a reachable node, `sdist` is the least number of steps reaching it.
pub proof fn lemma_sdist_least(g: GraphView, src: Seq<char>, v: Seq<char>)
    requires
        reachable(g, src, v),
    ensures
        is_least_dist(g, src, v, sdist(g, src, v)),
{
    let k = choose|k: nat| reach(g, src, k).contains(v);
    lemma_least_exists(g, src, v, k);
}

/// The length that the ordered pair `(u, v)` contributes to a whole-graph
/// total: the shortest-path distance where `v` is another, reachable
/// node, and nothing otherwise.
pub open spec fn pair_term(g: GraphView, u: Seq<char>, v: Seq<char>) -> nat {
    if v != u && reachable(g, u, v) {
        sdist(g, u, v)
    } else {
        0
    }
}

/// Whether the ordered pair `(u, v)` counts as a reachable pair.
pub open spec fn pair_one(g: GraphView, u: Seq<char>, v: Seq<char>) -> nat {
    if v != u && reachable(g, u, v) {
        1
    } else {
        0
    }
}

/// A distance map is certified when the source sits at distance zero,
/// nothing else does, and every other entry has a neighbor one step
/// closer to the source.
pub open spec fn dist_ok(g: GraphView, src: Seq<char>, m: Map<Seq<char>, nat>) -> bool {
    &&& m.dom().contains(src)
    &&& (forall|v: Seq<char>| #[trigger] m.dom().contains(v) ==> (m[v] == 0 <==> v == src))
    &&& (forall|v: Seq<char>|
        #[trigger] m.dom().contains(v) && m[v] > 0 ==> exists|u: Seq<char>|
            m.dom().contains(u) && m[u] + 1 == m[v] && #[trigger] adj_of(g, u).contains(v))
}

/// A distance map is closed when each entry's neighbors are entries at
/// most one step further away.
pub open spec fn closed_under_adj(g: GraphView, m: Map<Seq<char>, nat>) -> bool {
    forall|u: Seq<char>, w: Seq<char>|
        m.dom().contains(u) && #[trigger] adj_of(g, u).contains(w) ==> m.dom().contains(w)
            && m[w] <= m[u] + 1
}

/// In a certified distance map, each entry is reached within its stated
/// distance.
pub proof fn lemma_cert_reach(
    g: GraphView,
    src: Seq<char>,
    m: Map<Seq<char>, nat>,
    v: Seq<char>,
)
    requires
        dist_ok(g, src, m),
        m.dom().contains(v),
    ensures
        reach(g, src, m[v]).contains(v),
    decreases m[v],
{
    if m[v] == 0 {
        assert(v == src);
    } else {
        let u = choose|u: Seq<char>|
            m.dom().contains(u) && m[u] + 1 == m[v] && #[trigger] adj_of(g, u).contains(v);
        lemma_cert_reach(g, src, m, u);
        let prev = reach(g, src, (m[v] - 1) as nat);
        assert(prev.contains(u));
        assert(prev.contains(u) && adj_of(g, u).contains(v));
        assert(Set::new(
            |x: Seq<char>|
                exists|w: Seq<char>| prev.contains(w) && #[trigger] adj_of(g, w).contains(x),
        ).contains(v));
    }
}

/// In a certified, closed distance map, every node reached within `k`
/// steps is an entry at distance at most `k`.
pub proof fn lemma_closed_reach(
    g: GraphView,
    src: Seq<char>,
    m: Map<Seq<char>, nat>,
    v: Seq<char>,
    k: nat,
)
    requires
        dist_ok(g, src, m),
        closed_under_adj(g, m),
        reach(g, src, k).contains(v),
    ensures
        m.dom().contains(v),
        m[v] <= k,
    decreases k,
{
    if k == 0 {
        assert(v == src);
    } else {
        let prev = reach(g, src, (k - 1) as nat);
        if prev.contains(v) {
            lemma_closed_reach(g, src, m, v, (k - 1) as nat);
        } else {
            let u = choose|u: Seq<char>| prev.contains(u) && #[trigger] adj_of(g, u).contains(v);
            lemma_closed_reach(g, src, m, u, (k - 1) as nat);
        }
    }
}

/// From a node absent from the graph, only the node itself is reachable,
/// at distance zero; it contributes no reachable pair.
pub proof fn lemma_isolated_node(g: GraphView, src: Seq<char>)
    requires
        !g.dom().contains(src),
    ensures
        forall|v: Seq<char>| reachable(g, src, v) <==> v == src,
        sdist(g, src, src) == 0,
        forall|v: Seq<char>| pair_term(g, src, v) == 0 && pair_one(g, src, v) == 0,
{
    assert forall|k: nat| reach(g, src, k) =~= Set::empty().insert(src) by {
        lemma_isolated_reach(g, src, k);
    }
    assert(reach(g, src, 0).contains(src));
    assert forall|v: Seq<char>| reachable(g, src, v) implies v == src by {
        let k = choose|k: nat| reach(g, src, k).contains(v);
        lemma_isolated_reach(g, src, k);
    }
    assert(is_least_dist(g, src, src, 0));
    lemma_sdist_least(g, src, src);
    lemma_least_unique(g, src, src, sdist(g, src, src), 0);
}

proof fn lemma_isolated_reach(g: GraphView, src: Seq<char>, k: nat)
    requires
        !g.dom().contains(src),
    ensures
        reach(g, src, k) =~= Set::empty().insert(src),
    decreases k,
{
    if k > 0 {
        lemma_isolated_reach(g, src, (k - 1) as nat);
        let prev = reach(g, src, (k - 1) as nat);
        assert forall|v: Seq<char>| reach(g, src, k).contains(v) implies v == src by {
            if !prev.contains(v) {
                let u = choose|u: Seq<char>|
                    prev.contains(u) && #[trigger] adj_of(g, u).contains(v);
                assert(u == src);
                assert(adj_of(g, src) =~= Set::<Seq<char>>::empty());
            }
        }
    }
}

/// The name-distance pairs of stored distance entries.
pub open spec fn dist_entry_views(s: Seq<(String, usize)>) -> Seq<(Seq<char>, nat)> {
    s.map_values(|p: (String, usize)| (p.0@, p.1 as nat))
}

/// The distance map that stored entries denote.
pub open spec fn dmap(s: Seq<(String, usize)>) -> Map<Seq<char>, nat> {
    assoc_map(dist_entry_views(s))
}

/// Distances from one source node: each reached node's name, mapped to
/// its shortest-path distance; unreached nodes are absent.
pub struct DistanceMap {
    pub(crate) entries: Vec<(String, usize)>,
}

impl View for DistanceMap {
    type V = Map<Seq<char>, nat>;

    closed spec fn view(&self) -> Map<Seq<char>, nat> {
        dmap(self.entries@)
    }
}

impl DistanceMap {
    /// The stored entries name each reached node once.
    pub closed spec fn wf(&self) -> bool {
        key_seq(dist_entry_views(self.entries@)).no_duplicates()
    }

    /// The distance recorded for the named node, or `None` where the node
    /// was not reached.
    pub fn get(&self, name: &String) -> (r: Option<usize>)
        requires
            self.wf(),
        ensures
            match r {
                Some(d) => self@.dom().contains(name@) && self@[name@] == d as nat,
                None => !self@.dom().contains(name@),
            },
    {
        let mut i: usize = 0;
        while i < self.entries.len()
            invariant
                self.wf(),
                i <= self.entries@.len(),
                forall|j: int| 0 <= j < i ==> self.entries@[j].0@ != name@,
            decreases self.entries@.len() - i,
        {
            if self.entries[i].0 == *name {
                proof {
                    lemma_assoc_map_at(dist_entry_views(self.entries@), i as int);
                    assert(dist_entry_views(self.entries@)[i as int] == (
                        self.entries@[i as int].0@,
                        self.entries@[i as int].1 as nat,
                    ));
                }
                return Some(self.entries[i].1);
            }
            i += 1;
        }
        proof {
            lemma_assoc_map_dom(dist_entry_views(self.entries@));
            assert forall|j: int|
                0 <= j < key_seq(dist_entry_views(self.entries@)).len() implies key_seq(
                dist_entry_views(self.entries@),
            )[j] != name@ by {
                assert(key_seq(dist_entry_views(self.entries@))[j] == self.entries@[j].0@);
            }
            assert(!key_seq(dist_entry_views(self.entries@)).contains(name@));
        }
        None
    }

    /// The number of reached nodes.
    pub fn len(&self) -> (n: usize)
        requires
            self.wf(),
        ensures
            n == self@.dom().len(),
    {
        proof {
            crate::assoc::lemma_assoc_map_len(dist_entry_views(self.entries@));
        }
        self.entries.len()
    }
}

/// Whether stored distance entries already name the given node.
fn dist_contains_key(entries: &Vec<(String, usize)>, name: &String) -> (b: bool)
    ensures
        b == dmap(entries@).dom().contains(name@),
{
    let mut i: usize = 0;
    while i < entries.len()
        invariant
            i <= entries@.len(),
            forall|j: int| 0 <= j < i ==> entries@[j].0@ != name@,
        decreases entries@.len() - i,
    {
        if entries[i].0 == *name {
            proof {
                lemma_assoc_map_dom(dist_entry_views(entries@));
                assert(key_seq(dist_entry_views(entries@))[i as int] == entries@[i as int].0@);
                assert(key_seq(dist_entry_views(entries@)).contains(name@));
            }
            return true;
        }
        i += 1;
    }
    proof {
        lemma_assoc_map_dom(dist_entry_views(entries@));
        assert forall|j: int|
            0 <= j < key_seq(dist_entry_views(entries@)).len() implies key_seq(
            dist_entry_views(entries@),
        )[j] != name@ by {
            assert(key_seq(dist_entry_views(entries@))[j] == entries@[j].0@);
        }
        assert(!key_seq(dist_entry_views(entries@)).contains(name@));
    }
    false
}

/// Appending a fresh node at distance `d + 1`, certified by a neighbor
/// at distance `d`, preserves every property the search maintains.
proof fn lemma_expand_push(
    g: GraphView,
    src: Seq<char>,
    u: Seq<char>,
    d: usize,
    pre: Seq<(String, usize)>,
    post: Seq<(String, usize)>,
)
    requires
        symmetric(g),
        post.len() == pre.len() + 1,
        forall|i: int| 0 <= i < pre.len() ==> post[i] == pre[i],
        post.last().1 == d + 1,
        !dmap(pre).dom().contains(post.last().0@),
        adj_of(g, u).contains(post.last().0@),
        key_seq(dist_entry_views(pre)).no_duplicates(),
        dist_ok(g, src, dmap(pre)),
        dmap(pre).dom().contains(u),
        dmap(pre)[u] == d as nat,
        d < pre.len(),
        forall|i: int| 0 <= i < pre.len() ==> (#[trigger] pre[i]).1 < pre.len(),
        forall|v: Seq<char>|
            #[trigger] dmap(pre).dom().contains(v) ==> v == src || g.dom().contains(v),
        forall|t1: int, t2: int|
            0 <= t1 <= t2 < pre.len() ==> (#[trigger] pre[t1]).1 <= (#[trigger] pre[t2]).1,
        pre.last().1 <= d + 1,
    ensures
        dmap(post) == dmap(pre).insert(post.last().0@, (d + 1) as nat),
        key_seq(dist_entry_views(post)).no_duplicates(),
        dist_ok(g, src, dmap(post)),
        forall|i: int| 0 <= i < post.len() ==> (#[trigger] post[i]).1 < post.len(),
        forall|v: Seq<char>|
            #[trigger] dmap(post).dom().contains(v) ==> v == src || g.dom().contains(v),
        forall|v: Seq<char>|
            #[trigger] dmap(pre).dom().contains(v) ==> dmap(post).dom().contains(v) && dmap(
                post,
            )[v] == dmap(pre)[v],
        dmap(post).dom().contains(post.last().0@),
        dmap(post)[post.last().0@] == (d + 1) as nat,
        forall|t1: int, t2: int|
            0 <= t1 <= t2 < post.len() ==> (#[trigger] post[t1]).1 <= (#[trigger] post[t2]).1,
        post.last().1 <= d + 1,
{
    let w = post.last().0@;
    assert(post =~= pre.push(post.last()));
    assert(dist_entry_views(post) =~= dist_entry_views(pre).push((w, (d + 1) as nat)));
    lemma_assoc_map_push(dist_entry_views(pre), (w, (d + 1) as nat));
    lemma_assoc_map_dom(dist_entry_views(pre));
    assert(key_seq(dist_entry_views(post)) =~= key_seq(dist_entry_views(pre)).push(w));
    assert forall|jj: int|
        0 <= jj < key_seq(dist_entry_views(pre)).len() implies key_seq(
        dist_entry_views(pre),
    )[jj] != w by {
        if key_seq(dist_entry_views(pre))[jj] == w {
            assert(key_seq(dist_entry_views(pre)).contains(w));
        }
    }
    assert(key_seq(dist_entry_views(post)).no_duplicates());
    assert(adj_of(g, w).contains(u));
    assert(g.dom().contains(w));
    assert(w != src);
    assert forall|v: Seq<char>|
        #[trigger] dmap(post).dom().contains(v) && dmap(post)[v] > 0 implies exists|uu: Seq<char>|
        dmap(post).dom().contains(uu) && dmap(post)[uu] + 1 == dmap(post)[v] && #[trigger] adj_of(
            g,
            uu,
        ).contains(v) by {
        if v == w {
            assert(dmap(post).dom().contains(u) && dmap(post)[u] + 1 == dmap(post)[v] && adj_of(
                g,
                u,
            ).contains(v));
        } else {
            assert(dmap(pre).dom().contains(v) && dmap(pre)[v] > 0);
            let uu = choose|uu: Seq<char>|
                dmap(pre).dom().contains(uu) && dmap(pre)[uu] + 1 == dmap(pre)[v]
                    && #[trigger] adj_of(g, uu).contains(v);
            assert(dmap(post).dom().contains(uu) && dmap(post)[uu] + 1 == dmap(post)[v] && adj_of(
                g,
                uu,
            ).contains(v));
        }
    }
}

/// Under nondecreasing stored distances capped by `d + 1`, every recorded
/// node sits at distance at most `d + 1`.
proof fn lemma_present_bound(pre: Seq<(String, usize)>, w: Seq<char>, d: usize)
    requires
        key_seq(dist_entry_views(pre)).no_duplicates(),
        dmap(pre).dom().contains(w),
        pre.len() >= 1,
        forall|t1: int, t2: int|
            0 <= t1 <= t2 < pre.len() ==> (#[trigger] pre[t1]).1 <= (#[trigger] pre[t2]).1,
        pre.last().1 <= d + 1,
    ensures
        dmap(pre)[w] <= d + 1,
{
    lemma_assoc_map_dom(dist_entry_views(pre));
    assert(key_seq(dist_entry_views(pre)).contains(w));
    let t = choose|t: int|
        0 <= t < key_seq(dist_entry_views(pre)).len() && key_seq(dist_entry_views(pre))[t] == w;
    lemma_assoc_map_at(dist_entry_views(pre), t);
    assert(dist_entry_views(pre)[t] == (pre[t].0@, pre[t].1 as nat));
    assert(dmap(pre)[w] == pre[t].1 as nat);
    assert(pre[t].1 <= pre[pre.len() - 1].1);
}

impl Graph {
    /// Appends every not-yet-recorded neighbor of the node stored at
    /// entry `ai`, at distance `d + 1`.
    #[verifier::rlimit(100)]
    fn expand(
        &self,
        ai: usize,
        d: usize,
        entries: &mut Vec<(String, usize)>,
        src: Ghost<Seq<char>>,
    )
        requires
            self.wf(),
            ai < self.adj@.len(),
            key_seq(dist_entry_views(old(entries)@)).no_duplicates(),
            dist_ok(self@, src@, dmap(old(entries)@)),
            dmap(old(entries)@).dom().contains(self.adj@[ai as int].0@),
            dmap(old(entries)@)[self.adj@[ai as int].0@] == d as nat,
            d < old(entries)@.len(),
            forall|i: int|
                0 <= i < old(entries)@.len() ==> (#[trigger] old(entries)@[i]).1
                    < old(entries)@.len(),
            forall|v: Seq<char>|
                #[trigger] dmap(old(entries)@).dom().contains(v) ==> v == src@
                    || self@.dom().contains(v),
            forall|t1: int, t2: int|
                0 <= t1 <= t2 < old(entries)@.len() ==> (#[trigger] old(entries)@[t1]).1 <= (
                #[trigger] old(entries)@[t2]).1,
            old(entries)@.last().1 <= d + 1,
        ensures
            key_seq(dist_entry_views(final(entries)@)).no_duplicates(),
            dist_ok(self@, src@, dmap(final(entries)@)),
            forall|i: int|
                0 <= i < final(entries)@.len() ==> (#[trigger] final(entries)@[i]).1
                    < final(entries)@.len(),
            forall|v: Seq<char>|
                #[trigger] dmap(final(entries)@).dom().contains(v) ==> v == src@
                    || self@.dom().contains(v),
            old(entries)@.len() <= final(entries)@.len(),
            forall|i: int|
                0 <= i < old(entries)@.len() ==> final(entries)@[i] == old(entries)@[i],
            forall|i: int|
                old(entries)@.len() <= i < final(entries)@.len()
                    ==> (#[trigger] final(entries)@[i]).1 == d + 1,
            forall|v: Seq<char>|
                #[trigger] dmap(old(entries)@).dom().contains(v) ==> dmap(
                    final(entries)@,
                ).dom().contains(v) && dmap(final(entries)@)[v] == dmap(old(entries)@)[v],
            forall|w: Seq<char>|
                #[trigger] adj_of(self@, self.adj@[ai as int].0@).contains(w) ==> dmap(
                    final(entries)@,
                ).dom().contains(w) && dmap(final(entries)@)[w] <= d + 1,
            forall|t1: int, t2: int|
                0 <= t1 <= t2 < final(entries)@.len() ==> (#[trigger] final(entries)@[t1]).1 <= (
                #[trigger] final(entries)@[t2]).1,
            final(entries)@.last().1 <= d + 1,
    {
        let ghost g = self@;
        let ghost u = self.adj@[ai as int].0@;
        proof {
            self.lemma_wf_unfold();
            self.lemma_entry_value(ai as int);
        }
        let list_len = self.adj[ai].1.len();
        let mut j: usize = 0;
        while j < list_len
            invariant
                self.wf(),
                ai < self.adj@.len(),
                g == self@,
                u == self.adj@[ai as int].0@,
                list_len == self.adj@[ai as int].1@.len(),
                j <= list_len,
                d < entries@.len(),
                key_seq(dist_entry_views(entries@)).no_duplicates(),
                dist_ok(g, src@, dmap(entries@)),
                forall|i: int|
                    0 <= i < entries@.len() ==> (#[trigger] entries@[i]).1 < entries@.len(),
                forall|v: Seq<char>|
                    #[trigger] dmap(entries@).dom().contains(v) ==> v == src@ || g.dom().contains(
                        v,
                    ),
                old(entries)@.len() <= entries@.len(),
                forall|i: int| 0 <= i < old(entries)@.len() ==> entries@[i] == old(entries)@[i],
                forall|i: int|
                    old(entries)@.len() <= i < entries@.len() ==> (#[trigger] entries@[i]).1 == d
                        + 1,
                forall|v: Seq<char>|
                    #[trigger] dmap(old(entries)@).dom().contains(v) ==> dmap(
                        entries@,
                    ).dom().contains(v) && dmap(entries@)[v] == dmap(old(entries)@)[v],
                dmap(entries@).dom().contains(u),
                dmap(entries@)[u] == d as nat,
                forall|t: int|
                    0 <= t < j ==> dmap(entries@).dom().contains(
                        #[trigger] self.adj@[ai as int].1@[t]@,
                    ) && dmap(entries@)[self.adj@[ai as int].1@[t]@] <= d + 1,
                forall|t1: int, t2: int|
                    0 <= t1 <= t2 < entries@.len() ==> (#[trigger] entries@[t1]).1 <= (
                    #[trigger] entries@[t2]).1,
                entries@.last().1 <= d + 1,
            decreases list_len - j,
        {
            let w: &String = &self.adj[ai].1[j];
            let already = dist_contains_key(entries, w);
            if !already {
                let ghost pre = entries@;
                let cur_len = entries.len();
                assert(d < cur_len);
                let dd = d + 1;
                entries.push((w.clone(), dd));
                proof {
                    self.lemma_wf_unfold();
                    self.lemma_entry_value(ai as int);
                    assert(adj_of(g, u).contains(w@)) by {
                        assert(crate::assoc::name_seq(self.adj@[ai as int].1@)[j as int] == w@);
                        assert(crate::assoc::name_seq(self.adj@[ai as int].1@).contains(w@));
                    }
                    assert(entries@.last().0@ == w@ && entries@.last().1 == dd);
                    lemma_expand_push(g, src@, u, d, pre, entries@);
                }
            } else {
                proof {
                    lemma_present_bound(entries@, w@, d);
                }
            }
            proof {
                assert(self.adj@[ai as int].1@[j as int]@ == w@);
            }
            j += 1;
        }
        proof {
            self.lemma_entry_value(ai as int);
            assert forall|w: Seq<char>| #[trigger]
                adj_of(g, u).contains(w) implies dmap(entries@).dom().contains(w) && dmap(
                entries@,
            )[w] <= d + 1 by {
                assert(crate::assoc::name_set(self.adj@[ai as int].1@).contains(w));
                assert(crate::assoc::name_seq(self.adj@[ai as int].1@).contains(w));
                let t = choose|t: int|
                    0 <= t < crate::assoc::name_seq(self.adj@[ai as int].1@).len()
                        && crate::assoc::name_seq(self.adj@[ai as int].1@)[t] == w;
                assert(self.adj@[ai as int].1@[t]@ == w);
            }
        }
    }

    /// Shortest-path distances from `start` to every node reachable from
    /// it, computed by breadth-first search. A node absent from the graph
    /// yields the singleton map carrying itself at distance zero.
    #[verifier::loop_isolation(false)]
    #[verifier::rlimit(50)]
    pub fn bfs_shortpath(&self, start: &String) -> (r: DistanceMap)
        requires
            self.wf(),
        ensures
            r.wf(),
            forall|v: Seq<char>|
                #![trigger r@.dom().contains(v)]
                #![trigger reachable(self@, start@, v)]
                r@.dom().contains(v) <==> reachable(self@, start@, v),
            forall|v: Seq<char>|
                #[trigger] r@.dom().contains(v) ==> r@[v] == sdist(self@, start@, v),
            forall|v: Seq<char>| #[trigger] r@.dom().contains(v) ==> (r@[v] == 0 <==> v == start@),
            forall|v: Seq<char>|
                #[trigger] r@.dom().contains(v) ==> v == start@ || self@.dom().contains(v),
            forall|v: Seq<char>| #[trigger] r@.dom().contains(v) ==> r@[v] <= self@.dom().len(),
            r@.dom().contains(start@),
    {
        let ghost g = self@;
        let ghost src = start@;
        proof {
            self.lemma_wf_props();
        }
        let mut entries: Vec<(String, usize)> = Vec::new();
        entries.push((start.clone(), 0));
        proof {
            assert(dist_entry_views(entries@) =~= Seq::empty().push((src, 0nat)));
            lemma_assoc_map_push(Seq::empty(), (src, 0nat));
            assert(dmap(entries@) == Map::<Seq<char>, nat>::empty().insert(src, 0nat));
            assert(key_seq(dist_entry_views(entries@)).no_duplicates());
            assert(dist_ok(g, src, dmap(entries@)));
        }
        let mut head: usize = 0;
        while head < entries.len()
            invariant
                head <= entries@.len(),
                1 <= entries@.len(),
                entries@.len() <= g.dom().len() + 1,
                key_seq(dist_entry_views(entries@)).no_duplicates(),
                dist_ok(g, src, dmap(entries@)),
                forall|i: int|
                    0 <= i < entries@.len() ==> (#[trigger] entries@[i]).1 < entries@.len(),
                forall|v: Seq<char>|
                    #[trigger] dmap(entries@).dom().contains(v) ==> v == src || g.dom().contains(
                        v,
                    ),
                forall|t: int, w: Seq<char>|
                    0 <= t < head && #[trigger] adj_of(g, entries@[t].0@).contains(w) ==> dmap(
                        entries@,
                    ).dom().contains(w) && dmap(entries@)[w] <= dmap(entries@)[entries@[t].0@] + 1,
                forall|t1: int, t2: int|
                    0 <= t1 <= t2 < entries@.len() ==> (#[trigger] entries@[t1]).1 <= (
                    #[trigger] entries@[t2]).1,
                head < entries@.len() ==> entries@.last().1 <= entries@[head as int].1 + 1,
            decreases g.dom().len() + 1 - head,
        {
            let current: String = entries[head].0.clone();
            let d: usize = entries[head].1;
            proof {
                lemma_assoc_map_at(dist_entry_views(entries@), head as int);
                assert(dist_entry_views(entries@)[head as int] == (
                    entries@[head as int].0@,
                    entries@[head as int].1 as nat,
                ));
                assert(dmap(entries@).dom().contains(current@));
                assert(dmap(entries@)[current@] == d as nat);
            }
            let maybe = self.find_entry(&current);
            let ghost pre_expand = entries@;
            match maybe {
                Some(ai) => {
                    proof {
                        assert(self.adj@[ai as int].0@ == current@);
                    }
                    self.expand(ai, d, &mut entries, Ghost(src));
                    proof {
                        assert forall|w: Seq<char>| #[trigger]
                            adj_of(g, current@).contains(w) implies dmap(
                            entries@,
                        ).dom().contains(w) && dmap(entries@)[w] <= d + 1 by {}
                        assert(forall|v: Seq<char>|
                            #[trigger] dmap(pre_expand).dom().contains(v) ==> dmap(
                                entries@,
                            ).dom().contains(v) && dmap(entries@)[v] == dmap(pre_expand)[v]);
                    }
                },
                None => {
                    proof {
                        assert(adj_of(g, current@) =~= Set::<Seq<char>>::empty());
                        assert forall|w: Seq<char>| #[trigger]
                            adj_of(g, current@).contains(w) implies dmap(
                            entries@,
                        ).dom().contains(w) && dmap(entries@)[w] <= d + 1 by {}
                        assert(forall|v: Seq<char>|
                            #[trigger] dmap(pre_expand).dom().contains(v) ==> dmap(
                                entries@,
                            ).dom().contains(v) && dmap(entries@)[v] == dmap(pre_expand)[v]);
                        assert(entries@.last().1 <= d + 1);
                    }
                },
            }
            proof {
                // the processed prefix keeps its closure, and the node just
                // processed gains it
                assert forall|t: int, w: Seq<char>|
                    0 <= t < head + 1 && #[trigger] adj_of(g, entries@[t].0@).contains(
                        w,
                    ) implies dmap(entries@).dom().contains(w) && dmap(entries@)[w] <= dmap(
                    entries@,
                )[entries@[t].0@] + 1 by {
                    assert(entries@[t] == pre_expand[t]);
                    if t < head {
                        lemma_assoc_map_dom(dist_entry_views(pre_expand));
                        assert(key_seq(dist_entry_views(pre_expand))[t] == pre_expand[t].0@);
                        assert(key_seq(dist_entry_views(pre_expand)).contains(pre_expand[t].0@));
                        assert(dmap(pre_expand).dom().contains(pre_expand[t].0@));
                        assert(dmap(pre_expand).dom().contains(w) && dmap(pre_expand)[w] <= dmap(
                            pre_expand,
                        )[pre_expand[t].0@] + 1);
                        assert(dmap(entries@)[w] == dmap(pre_expand)[w]);
                        assert(dmap(entries@)[entries@[t].0@] == dmap(
                            pre_expand,
                        )[pre_expand[t].0@]);
                    } else {
                        assert(entries@[t].0@ == current@);
                        assert(dmap(entries@)[current@] == d as nat);
                    }
                }
                // the next pending entry, if any, caps the stored distances
                if head + 1 < entries@.len() {
                    if head + 1 < pre_expand.len() {
                        assert(entries@[head + 1] == pre_expand[head + 1]);
                        assert(pre_expand[head as int].1 <= pre_expand[head + 1].1);
                    } else {
                        assert(entries@[head + 1].1 == d + 1);
                    }
                    assert(entries@.last().1 <= entries@[head + 1].1 + 1);
                }
                // the discovered nodes stay within the graph's node set
                lemma_assoc_map_dom(dist_entry_views(entries@));
                key_seq(dist_entry_views(entries@)).unique_seq_to_set();
                assert(key_seq(dist_entry_views(entries@)).to_set() =~= dmap(entries@).dom());
                assert(dmap(entries@).dom().subset_of(g.dom().insert(src)));
                lemma_len_subset(dmap(entries@).dom(), g.dom().insert(src));
                assert(g.dom().insert(src).len() <= g.dom().len() + 1);
                assert(entries@.len() <= g.dom().len() + 1);
            }
            head += 1;
        }
        proof {
            let m = dmap(entries@);
            assert forall|uu: Seq<char>, w: Seq<char>|
                m.dom().contains(uu) && #[trigger] adj_of(g, uu).contains(w) implies m.dom(
            ).contains(w) && m[w] <= m[uu] + 1 by {
                lemma_assoc_map_dom(dist_entry_views(entries@));
                assert(key_seq(dist_entry_views(entries@)).contains(uu));
                let t = choose|t: int|
                    0 <= t < key_seq(dist_entry_views(entries@)).len() && key_seq(
                        dist_entry_views(entries@),
                    )[t] == uu;
                assert(dist_entry_views(entries@)[t] == (entries@[t].0@, entries@[t].1 as nat));
                assert(entries@[t].0@ == uu);
                assert(adj_of(g, entries@[t].0@).contains(w));
            }
            assert(closed_under_adj(g, m));
            assert forall|v: Seq<char>| #[trigger] m.dom().contains(v) implies m[v] == sdist(
                g,
                src,
                v,
            ) && reachable(g, src, v) && m[v] <= g.dom().len() by {
                lemma_cert_reach(g, src, m, v);
                assert(reach(g, src, m[v]).contains(v));
                assert(reachable(g, src, v));
                assert forall|j: nat| j < m[v] implies !reach(g, src, j).contains(v) by {
                    if reach(g, src, j).contains(v) {
                        lemma_closed_reach(g, src, m, v, j);
                    }
                }
                assert(is_least_dist(g, src, v, m[v]));
                lemma_sdist_least(g, src, v);
                lemma_least_unique(g, src, v, m[v], sdist(g, src, v));
                lemma_assoc_map_dom(dist_entry_views(entries@));
                assert(key_seq(dist_entry_views(entries@)).contains(v));
                let t = choose|t: int|
                    0 <= t < key_seq(dist_entry_views(entries@)).len() && key_seq(
                        dist_entry_views(entries@),
                    )[t] == v;
                lemma_assoc_map_at(dist_entry_views(entries@), t);
                assert(dist_entry_views(entries@)[t] == (entries@[t].0@, entries@[t].1 as nat));
                assert(m[v] == entries@[t].1 as nat);
                assert(entries@[t].1 < entries@.len());
            }
            assert forall|v: Seq<char>| reachable(g, src, v) implies m.dom().contains(v) by {
                let k = choose|k: nat| reach(g, src, k).contains(v);
                lemma_closed_reach(g, src, m, v, k);
            }
        }
        DistanceMap { entries }
    }
}

/// The cap on analyzed node counts: it keeps every whole-graph distance
/// total within the accumulators' range.
pub const MAX_ANALYSIS_NODES: usize = 2000000;

/// Sum of the pair lengths from source `u` to the first `j` listed nodes.
pub open spec fn row_total(g: GraphView, keys: Seq<Seq<char>>, u: Seq<char>, j: int) -> nat
    decreases j,
{
    if j <= 0 {
        0
    } else {
        row_total(g, keys, u, j - 1) + pair_term(g, u, keys[j - 1])
    }
}

/// Number of reachable pairs from source `u` among the first `j` listed nodes.
pub open spec fn row_count(g: GraphView, keys: Seq<Seq<char>>, u: Seq<char>, j: int) -> nat
    decreases j,
{
    if j <= 0 {
        0
    } else {
        row_count(g, keys, u, j - 1) + pair_one(g, u, keys[j - 1])
    }
}

/// Sum of the pair lengths over the first `i` listed source nodes, each
/// paired with every listed node.
pub open spec fn grid_total(g: GraphView, keys: Seq<Seq<char>>, i: int) -> nat
    decreases i,
{
    if i <= 0 {
        0
    } else {
        grid_total(g, keys, i - 1) + row_total(g, keys, keys[i - 1], keys.len() as int)
    }
}

/// Number of ordered reachable pairs over the first `i` listed source nodes.
pub open spec fn grid_count(g: GraphView, keys: Seq<Seq<char>>, i: int) -> nat
    decreases i,
{
    if i <= 0 {
        0
    } else {
        grid_count(g, keys, i - 1) + row_count(g, keys, keys[i - 1], keys.len() as int)
    }
}

/// The total length and the number of the ordered reachable pairs of a
/// graph. Each unordered pair is counted once from either endpoint, so
/// the duplication cancels in the ratio `total / pairs`.
#[derive(Clone, Copy, PartialEq, Eq, Structural, Debug)]
pub struct AvgStats {
    pub total: u64,
    pub pairs: u64,
}

/// The whole-graph totals, or `None` for a graph without reachable
/// pairs, whose average would be undefined.
pub open spec fn stats_of(g: Graph) -> Option<AvgStats> {
    let keys = g.node_seq();
    let t = grid_total(g@, keys, keys.len() as int);
    let p = grid_count(g@, keys, keys.len() as int);
    if p == 0 {
        None
    } else {
        Some(AvgStats { total: t as u64, pairs: p as u64 })
    }
}

impl Graph {
    /// The total and count of all ordered reachable pairs `(a, b)`,
    /// `a != b`, summed over a breadth-first search from every node; the
    /// average shortest-path length is their ratio. `None` when the graph
    /// has no reachable pair, instead of an undefined average.
    #[verifier::loop_isolation(false)]
    #[verifier::rlimit(100)]
    pub fn average_shortpath(&self) -> (r: Option<AvgStats>)
        requires
            self.wf(),
            self.node_count() <= MAX_ANALYSIS_NODES,
        ensures
            r == stats_of(*self),
    {
        let ghost g = self@;
        let ghost keys = self.node_seq();
        proof {
            self.lemma_wf_props();
            self.lemma_node_seq();
            self.lemma_node_seq_entries();
        }
        let n = self.adj.len();
        let mut total: u64 = 0;
        let mut pairs: u64 = 0;
        let mut i: usize = 0;
        while i < n
            invariant
                i <= n,
                total as nat == grid_total(g, keys, i as int),
                pairs as nat == grid_count(g, keys, i as int),
                (pairs as int) <= (i as int) * (n as int),
                (total as int) <= (pairs as int) * (n as int),
            decreases n - i,
        {
            let src_name = &self.adj[i].0;
            let ghost u = keys[i as int];
            proof {
                assert(u == self.adj@[i as int].0@);
            }
            let dm = self.bfs_shortpath(src_name);
            let mut j: usize = 0;
            while j < n
                invariant
                    j <= n,
                    i < n,
                    total as nat == grid_total(g, keys, i as int) + row_total(
                        g,
                        keys,
                        u,
                        j as int,
                    ),
                    pairs as nat == grid_count(g, keys, i as int) + row_count(
                        g,
                        keys,
                        u,
                        j as int,
                    ),
                    (pairs as int) <= (i as int) * (n as int) + (j as int),
                    (total as int) <= (pairs as int) * (n as int),
                decreases n - j,
            {
                let tgt = &self.adj[j].0;
                proof {
                    assert(keys[j as int] == tgt@);
                }
                let found = dm.get(tgt);
                match found {
                    Some(dv) => {
                        if dv > 0 {
                            proof {
                                assert(dm@.dom().contains(tgt@));
                                assert(reachable(g, u, tgt@));
                                assert(tgt@ != u);
                                assert(dv as nat == sdist(g, u, tgt@));
                                assert(pair_term(g, u, keys[j as int]) == dv as nat);
                                assert(pair_one(g, u, keys[j as int]) == 1);
                                assert(dv as nat <= g.dom().len());
                                assert(g.dom().len() == n as nat);
                                assert((i as int) * (n as int) + (j as int) + 1 <= (n as int) * (
                                n as int)) by (nonlinear_arith)
                                    requires
                                        (i as int) < (n as int),
                                        (j as int) < (n as int),
                                ;
                                assert(total as int + dv as int <= (pairs as int + 1) * n as int)
                                    by (nonlinear_arith)
                                    requires
                                        (total as int) <= (pairs as int) * (n as int),
                                        dv as int <= n as int,
                                ;
                                assert(((pairs as int) + 1) * (n as int) <= (n as int) * (n as int)
                                    * (n as int)) by (nonlinear_arith)
                                    requires
                                        0 <= (n as int),
                                        (pairs as int) + 1 <= (n as int) * (n as int),
                                ;
                                assert((n as int) * (n as int) <= 4000000000000int)
                                    by (nonlinear_arith)
                                    requires
                                        0 <= (n as int),
                                        (n as int) <= 2000000,
                                ;
                                assert((n as int) * (n as int) * (n as int)
                                    <= 8000000000000000000int) by (nonlinear_arith)
                                    requires
                                        0 <= (n as int),
                                        (n as int) <= 2000000,
                                ;
                            }
                            total = total + (dv as u64);
                            pairs = pairs + 1;
                        } else {
                            proof {
                                assert(tgt@ == u);
                                assert(pair_term(g, u, keys[j as int]) == 0);
                                assert(pair_one(g, u, keys[j as int]) == 0);
                            }
                        }
                    },
                    None => {
                        proof {
                            assert(!reachable(g, u, tgt@));
                            assert(pair_term(g, u, keys[j as int]) == 0);
                            assert(pair_one(g, u, keys[j as int]) == 0);
                        }
                    },
                }
                j += 1;
            }
            proof {
                assert(row_total(g, keys, u, n as int) == row_total(
                    g,
                    keys,
                    keys[i as int],
                    keys.len() as int,
                ));
                assert(((i as int) + 1) * (n as int) == (i as int) * (n as int) + (n as int))
                    by (nonlinear_arith);
                assert((pairs as int) <= ((i as int) + 1) * (n as int));
            }
            i += 1;
        }
        proof {
            assert(total as nat == grid_total(g, keys, keys.len() as int));
            assert(pairs as nat == grid_count(g, keys, keys.len() as int));
        }
        if pairs == 0 {
            None
        } else {
            proof {
                assert(grid_total(g, keys, keys.len() as int) as u64 == total);
                assert(grid_count(g, keys, keys.len() as int) as u64 == pairs);
            }
            Some(AvgStats { total, pairs })
        }
    }
}

} // verus!
