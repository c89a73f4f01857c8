//! Topology of a thermodynamic network: nodes named by string identifiers
//! and edges (links) between them, each edge carrying a flux from its source
//! node to its target node.

use vstd::prelude::*;
use crate::affinity::group_or_empty;
use crate::grouping::{push_into, Grouping};
use crate::labels::{indexed_label, lemma_indexed_label_injective, make_label};
use crate::names::{lemma_push_larger, name_position, names_contain};

verus! {

/// An edge of the network, from `source` to `target`.
pub struct Link {
    pub id: String,
    pub source: String,
    pub target: String,
}

/// The nodes and edges of a network. A node identifier occurs once; edges
/// keep the order in which they were added.
pub struct Topology {
    pub node_ids: Vec<String>,
    pub links: Vec<Link>,
}

/// Whether edge `l` has `node` as source or target.
pub open spec fn touches(l: Link, node: Seq<char>) -> bool {
    l.source@ == node || l.target@ == node
}

/// The adjacency lists of `links`: for every edge in order, its target is
/// appended to the list of its source, then its source to the list of its
/// target.
pub open spec fn adjacency_map(links: Seq<Link>) -> Map<Seq<char>, Seq<String>>
    decreases links.len(),
{
    if links.len() == 0 {
        Map::empty()
    } else {
        let l = links.last();
        push_into(push_into(adjacency_map(links.drop_last()), l.source@, l.target), l.target@, l.source)
    }
}

/// The identifiers that are an endpoint of some edge.
pub open spec fn endpoints(links: Seq<Link>) -> Set<Seq<char>> {
    Set::new(|k: Seq<char>| exists|i: int| 0 <= i < links.len() && touches(#[trigger] links[i], k))
}

/// Whether some edge joins `a` and `b`, in either direction.
pub open spec fn linked(links: Seq<Link>, a: Seq<char>, b: Seq<char>) -> bool {
    exists|i: int|
        0 <= i < links.len() && ((#[trigger] links[i].source@ == a && links[i].target@ == b) || (
        links[i].target@ == a && links[i].source@ == b))
}

/// Whether some string of `xs` is `b`.
pub open spec fn has_view(xs: Seq<String>, b: Seq<char>) -> bool {
    exists|j: int| 0 <= j < xs.len() && #[trigger] xs[j]@ == b
}

/// Whether the adjacency list of `a` in `adj` holds the identifier `b`.
pub open spec fn lists_neighbour(adj: Map<Seq<char>, Seq<String>>, a: Seq<char>, b: Seq<char>) -> bool {
    adj.contains_key(a) && has_view(adj[a], b)
}

/// How many edge ends (sources and targets) are `k`.
pub open spec fn end_count(links: Seq<Link>, k: Seq<char>) -> nat
    decreases links.len(),
{
    if links.len() == 0 {
        0
    } else {
        let l = links.last();
        end_count(links.drop_last(), k) + (if l.source@ == k { 1nat } else { 0nat }) + (if l.target@
            == k { 1nat } else { 0nat })
    }
}

/// The identifiers of `ids` in order, each one only where it first occurs.
pub open spec fn first_occurrences(ids: Seq<Seq<char>>) -> Seq<Seq<char>>
    decreases ids.len(),
{
    if ids.len() == 0 {
        Seq::empty()
    } else {
        let prev = first_occurrences(ids.drop_last());
        if prev.contains(ids.last()) {
            prev
        } else {
            prev.push(ids.last())
        }
    }
}

/// The number of edges a linear chain of `n_values` nodes and
/// `n_conductances` conductances has: one per conductance, as long as there
/// is a next node to reach.
pub open spec fn chain_link_count(n_values: nat, n_conductances: nat) -> nat {
    if n_values == 0 {
        0
    } else if n_conductances < n_values - 1 {
        n_conductances
    } else {
        (n_values - 1) as nat
    }
}

impl Topology {
    /// The set of node identifiers.
    pub open spec fn node_set(&self) -> Set<Seq<char>> {
        Set::new(|k: Seq<char>| exists|i: int| 0 <= i < self.node_ids.len() && #[trigger] self.node_ids@[i]@ == k)
    }

    /// The node identifiers, in order.
    pub open spec fn node_views(&self) -> Seq<Seq<char>> {
        self.node_ids@.map_values(|id: String| id@)
    }

    /// No node identifier occurs twice.
    pub open spec fn wf(&self) -> bool {
        forall|i: int, j: int|
            0 <= i < self.node_ids.len() && 0 <= j < self.node_ids.len() && i != j ==> #[trigger] self.node_ids@[i]@
                != #[trigger] self.node_ids@[j]@
    }

    /// A network without nodes or edges.
    pub fn new() -> (t: Self)
        ensures
            t.wf(),
            t.node_ids@.len() == 0,
            t.links@.len() == 0,
    {
        Topology { node_ids: Vec::new(), links: Vec::new() }
    }

    /// Whether a node with identifier `id` is present.
    pub fn has_node(&self, id: &String) -> (found: bool)
        ensures
            found == self.node_set().contains(id@),
    {
        let found = name_position(&self.node_ids, id).is_some();
        proof {
            if names_contain(self.node_ids@, id@) {
                let j = choose|j: int| 0 <= j < self.node_ids.len() && #[trigger] self.node_ids@[j]@ == id@;
                assert(self.node_set().contains(id@));
            }
            if self.node_set().contains(id@) {
                let j = choose|j: int| 0 <= j < self.node_ids.len() && #[trigger] self.node_ids@[j]@ == id@;
                assert(names_contain(self.node_ids@, id@));
            }
        }
        found
    }

    /// Adds the node `id`. A node of that identifier already present stays as
    /// it is (its identifier is not repeated).
    pub fn add_node(&mut self, id: String)
        requires
            old(self).wf(),
        ensures
            final(self).wf(),
            final(self).links@ == old(self).links@,
            old(self).node_set().contains(id@) ==> final(self).node_ids@ == old(self).node_ids@,
            !old(self).node_set().contains(id@) ==> final(self).node_ids@ == old(self).node_ids@.push(id),
            final(self).node_set() == old(self).node_set().insert(id@),
    {
        let ghost old_t = *self;
        if !self.has_node(&id) {
            let ghost idv = id@;
            self.node_ids.push(id);
            let ghost n = old_t.node_ids.len() as int;
            assert(self.node_ids@[n]@ == idv);
            assert(forall|i: int| 0 <= i < n ==> #[trigger] self.node_ids@[i]@ == old_t.node_ids@[i]@);
            assert forall|k: Seq<char>| #![trigger self.node_set().contains(k)]
                self.node_set().contains(k) <==> old_t.node_set().insert(idv).contains(k) by {
                if old_t.node_set().contains(k) {
                    let i = choose|i: int| 0 <= i < old_t.node_ids.len() && #[trigger] old_t.node_ids@[i]@ == k;
                    assert(self.node_ids@[i]@ == k);
                }
            }
            assert(self.node_set() =~= old_t.node_set().insert(idv));
        } else {
            assert(self.node_set() =~= old_t.node_set().insert(id@));
        }
    }

    /// Adds the edge `link` after the existing ones.
    pub fn add_link(&mut self, link: Link)
        ensures
            final(self).node_ids@ == old(self).node_ids@,
            final(self).links@ == old(self).links@.push(link),
    {
        self.links.push(link);
    }

    /// The adjacency lists of the network: each endpoint of an edge is a key,
    /// whose list holds the node at the other end of each of its edges, in
    /// edge order.
    pub fn adjacency(&self) -> (adj: Grouping<String>)
        ensures
            adj.wf(),
            adj.as_map() == adjacency_map(self.links@),
    {
        let mut adj: Grouping<String> = Grouping::new();
        let mut i: usize = 0;
        while i < self.links.len()
            invariant
                i <= self.links.len(),
                adj.wf(),
                adj.as_map() == adjacency_map(self.links@.take(i as int)),
            decreases self.links.len() - i,
        {
            let link = &self.links[i];
            adj.add(&link.source, link.target.clone());
            adj.add(&link.target, link.source.clone());
            assert(self.links@.take(i + 1).drop_last() =~= self.links@.take(i as int));
            i = i + 1;
        }
        assert(self.links@.take(self.links.len() as int) =~= self.links@);
        adj
    }

    /// The positions, in increasing order, of the edges that have `node_id`
    /// as source or target.
    pub fn edges_for_node(&self, node_id: &String) -> (found: Vec<usize>)
        ensures
            forall|j: int| 0 <= j < found.len() ==> #[trigger] found@[j] < self.links.len(),
            forall|j: int, k: int| 0 <= j < k < found.len() ==> #[trigger] found@[j] < #[trigger] found@[k],
            forall|i: int|
                0 <= i < self.links.len() ==> (touches(#[trigger] self.links@[i], node_id@) <==> found@.contains(
                    i as usize,
                )),
    {
        let mut found: Vec<usize> = Vec::new();
        let mut i: usize = 0;
        while i < self.links.len()
            invariant
                i <= self.links.len(),
                forall|j: int| 0 <= j < found.len() ==> #[trigger] found@[j] < i,
                forall|j: int, k: int| 0 <= j < k < found.len() ==> #[trigger] found@[j] < #[trigger] found@[k],
                forall|m: int|
                    0 <= m < i ==> (touches(#[trigger] self.links@[m], node_id@) <==> found@.contains(m as usize)),
            decreases self.links.len() - i,
        {
            let link = &self.links[i];
            let ghost prev = found@;
            if link.source == *node_id || link.target == *node_id {
                found.push(i);
            }
            assert forall|m: int| 0 <= m < i + 1 implies (touches(#[trigger] self.links@[m], node_id@)
                <==> found@.contains(m as usize)) by {
                if found@ != prev {
                    lemma_push_larger(prev, i, m as usize);
                }
            }
            i = i + 1;
        }
        found
    }
}

/// The nodes `N0`, ..., `N(n_values - 1)` of a linear chain, and one edge
/// `Ei` from `Ni` to `N(i + 1)` for each conductance `i` that has a next node
/// to reach.
pub fn linear_chain_topology(n_values: usize, n_conductances: usize) -> (t: Topology)
    ensures
        t.wf(),
        t.node_ids.len() == n_values,
        forall|i: int| 0 <= i < n_values ==> #[trigger] t.node_ids@[i]@ == indexed_label("N"@, i as nat),
        t.links.len() == chain_link_count(n_values as nat, n_conductances as nat),
        is_chain(t.links@),
        forall|i: int|
            0 <= i < t.links.len() ==> {
                &&& (#[trigger] t.links@[i]).id@ == indexed_label("E"@, i as nat)
                &&& t.links@[i].source@ == indexed_label("N"@, i as nat)
                &&& t.links@[i].target@ == indexed_label("N"@, (i + 1) as nat)
            },
{
    let mut t = Topology::new();
    let mut i: usize = 0;
    while i < n_values
        invariant
            i <= n_values,
            t.wf(),
            t.links@.len() == 0,
            t.node_ids.len() == i,
            forall|j: int| 0 <= j < i ==> #[trigger] t.node_ids@[j]@ == indexed_label("N"@, j as nat),
        decreases n_values - i,
    {
        let id = make_label("N", i);
        proof {
            if t.node_set().contains(id@) {
                let j = choose|j: int| 0 <= j < t.node_ids.len() && #[trigger] t.node_ids@[j]@ == id@;
                lemma_indexed_label_injective("N"@, j as nat, i as nat);
            }
        }
        t.add_node(id);
        i = i + 1;
    }
    let mut c: usize = 0;
    while c < n_conductances
        invariant
            c <= n_conductances,
            t.wf(),
            t.node_ids.len() == n_values,
            forall|j: int| 0 <= j < n_values ==> #[trigger] t.node_ids@[j]@ == indexed_label("N"@, j as nat),
            t.links.len() == chain_link_count(n_values as nat, c as nat),
            forall|j: int|
                0 <= j < t.links.len() ==> {
                    &&& (#[trigger] t.links@[j]).id@ == indexed_label("E"@, j as nat)
                    &&& t.links@[j].source@ == indexed_label("N"@, j as nat)
                    &&& t.links@[j].target@ == indexed_label("N"@, (j + 1) as nat)
                },
        decreases n_conductances - c,
    {
        if c + 1 < n_values {
            let link = Link { id: make_label("E", c), source: make_label("N", c), target: make_label("N", c + 1) };
            t.add_link(link);
        }
        c = c + 1;
    }
    t
}

/// A star: the node `center_id`, then each peripheral node in order, with an
/// edge `Ei` from the center to peripheral node `i`.
pub fn star_topology(center_id: &str, peripheral_ids: &Vec<String>) -> (t: Topology)
    ensures
        t.wf(),
        t.node_ids.len() >= 1,
        t.node_ids@[0]@ == center_id@,
        t.node_set() == peripheral_ids@.map_values(|p: String| p@).to_set().insert(center_id@),
        t.node_views() == first_occurrences(seq![center_id@] + peripheral_ids@.map_values(|p: String| p@)),
        is_star(t.links@, center_id@, peripheral_ids@.map_values(|p: String| p@)),
        t.links.len() == peripheral_ids.len(),
        forall|i: int|
            0 <= i < t.links.len() ==> {
                &&& (#[trigger] t.links@[i]).id@ == indexed_label("E"@, i as nat)
                &&& t.links@[i].source@ == center_id@
                &&& t.links@[i].target@ == peripheral_ids@[i]@
            },
{
    let mut t = Topology::new();
    t.add_node(String::from_str(center_id));
    let ghost ids = peripheral_ids@.map_values(|p: String| p@);
    let ghost all = seq![center_id@] + ids;
    proof {
        assert(all.take(1).drop_last() =~= Seq::<Seq<char>>::empty());
        assert(first_occurrences(all.take(1).drop_last()) =~= Seq::<Seq<char>>::empty());
        assert(all.take(1).last() == center_id@);
        assert(t.node_ids@.len() == 1);
        assert(t.node_views() =~= first_occurrences(all.take(1)));
    }
    let mut i: usize = 0;
    while i < peripheral_ids.len()
        invariant
            i <= peripheral_ids.len(),
            ids == peripheral_ids@.map_values(|p: String| p@),
            all == seq![center_id@] + ids,
            t.node_views() == first_occurrences(all.take(i + 1)),
            t.wf(),
            t.node_ids.len() >= 1,
            t.node_ids@[0]@ == center_id@,
            t.node_set() == ids.take(i as int).to_set().insert(center_id@),
            t.links.len() == i,
            forall|j: int|
                0 <= j < i ==> {
                    &&& (#[trigger] t.links@[j]).id@ == indexed_label("E"@, j as nat)
                    &&& t.links@[j].source@ == center_id@
                    &&& t.links@[j].target@ == peripheral_ids@[j]@
                },
        decreases peripheral_ids.len() - i,
    {
        let pid = &peripheral_ids[i];
        let ghost views_before = t.node_views();
        proof {
            assert(t.node_set().contains(pid@) <==> views_before.contains(pid@)) by {
                if t.node_set().contains(pid@) {
                    let j = choose|j: int| 0 <= j < t.node_ids.len() && #[trigger] t.node_ids@[j]@ == pid@;
                    assert(views_before[j] == pid@);
                }
                if views_before.contains(pid@) {
                    let j = choose|j: int| 0 <= j < views_before.len() && views_before[j] == pid@;
                    assert(t.node_ids@[j]@ == pid@);
                }
            }
            assert(all.take(i + 2).drop_last() =~= all.take(i + 1));
            assert(all.take(i + 2).last() == pid@);
        }
        t.add_node(pid.clone());
        assert(t.node_views() =~= first_occurrences(all.take(i + 2)));
        assert(ids.take(i + 1) =~= ids.take(i as int).push(pid@));
        let ghost longer = ids.take(i + 1);
        let ghost shorter = ids.take(i as int);
        assert forall|k: Seq<char>| #![trigger longer.contains(k)]
            longer.contains(k) <==> shorter.contains(k) || k == pid@ by {
            if longer.contains(k) {
                let j = choose|j: int| 0 <= j < longer.len() && #[trigger] longer[j] == k;
                if j < i {
                    assert(shorter[j] == k);
                }
            }
            if shorter.contains(k) {
                let j = choose|j: int| 0 <= j < shorter.len() && #[trigger] shorter[j] == k;
                assert(longer[j] == k);
            }
            if k == pid@ {
                assert(longer[i as int] == k);
            }
        }
        assert(longer.to_set() =~= shorter.to_set().insert(pid@));
        assert(t.node_set() =~= ids.take(i + 1).to_set().insert(center_id@));
        let link = Link { id: make_label("E", i), source: String::from_str(center_id), target: pid.clone() };
        t.add_link(link);
        i = i + 1;
    }
    assert(ids.take(peripheral_ids.len() as int) =~= ids);
    assert(all.take(peripheral_ids.len() + 1) =~= all);
    t
}


proof fn lemma_has_view_push(xs: Seq<String>, y: String, b: Seq<char>)
    ensures
        has_view(xs.push(y), b) <==> has_view(xs, b) || y@ == b,
{
    let ys = xs.push(y);
    if has_view(ys, b) {
        let j = choose|j: int| 0 <= j < ys.len() && #[trigger] ys[j]@ == b;
        if j < xs.len() {
            assert(xs[j]@ == b);
        }
    }
    if has_view(xs, b) {
        let j = choose|j: int| 0 <= j < xs.len() && #[trigger] xs[j]@ == b;
        assert(ys[j]@ == b);
    }
    if y@ == b {
        assert(ys[xs.len() as int]@ == b);
    }
}

proof fn lemma_linked_last(links: Seq<Link>, a: Seq<char>, b: Seq<char>)
    requires
        links.len() > 0,
    ensures
        linked(links, a, b) <==> linked(links.drop_last(), a, b) || (links.last().source@ == a
            && links.last().target@ == b) || (links.last().target@ == a && links.last().source@ == b),
{
    let prefix = links.drop_last();
    if linked(links, a, b) {
        let i = choose|i: int|
            0 <= i < links.len() && ((#[trigger] links[i].source@ == a && links[i].target@ == b) || (
            links[i].target@ == a && links[i].source@ == b));
        if i < prefix.len() {
            assert(prefix[i] == links[i]);
        }
    }
    if linked(prefix, a, b) {
        let i = choose|i: int|
            0 <= i < prefix.len() && ((#[trigger] prefix[i].source@ == a && prefix[i].target@ == b) || (
            prefix[i].target@ == a && prefix[i].source@ == b));
        assert(links[i] == prefix[i]);
    }
    if (links.last().source@ == a && links.last().target@ == b) || (links.last().target@ == a
        && links.last().source@ == b) {
        assert(links[links.len() - 1] == links.last());
    }
}

proof fn lemma_endpoints_last(links: Seq<Link>, k: Seq<char>)
    requires
        links.len() > 0,
    ensures
        endpoints(links).contains(k) <==> endpoints(links.drop_last()).contains(k) || touches(links.last(), k),
{
    let prefix = links.drop_last();
    if endpoints(links).contains(k) {
        let i = choose|i: int| 0 <= i < links.len() && touches(#[trigger] links[i], k);
        if i < prefix.len() {
            assert(touches(prefix[i], k));
        }
    }
    if endpoints(prefix).contains(k) {
        let i = choose|i: int| 0 <= i < prefix.len() && touches(#[trigger] prefix[i], k);
        assert(touches(links[i], k));
    }
    if touches(links.last(), k) {
        assert(touches(links[links.len() - 1], k));
    }
}

/// Every endpoint of an edge, and nothing else, has an adjacency list.
pub proof fn lemma_adjacency_keys(links: Seq<Link>)
    ensures
        adjacency_map(links).dom() == endpoints(links),
    decreases links.len(),
{
    if links.len() == 0 {
        assert(adjacency_map(links).dom() =~= endpoints(links));
    } else {
        lemma_adjacency_keys(links.drop_last());
        assert forall|k: Seq<char>| #![trigger endpoints(links).contains(k)]
            adjacency_map(links).dom().contains(k) <==> endpoints(links).contains(k) by {
            lemma_endpoints_last(links, k);
        }
        assert(adjacency_map(links).dom() =~= endpoints(links));
    }
}

/// The adjacency list of `a` names `b` exactly when an edge joins `a` and
/// `b`, in either direction.
pub proof fn lemma_adjacency_neighbours(links: Seq<Link>, a: Seq<char>, b: Seq<char>)
    ensures
        lists_neighbour(adjacency_map(links), a, b) <==> linked(links, a, b),
    decreases links.len(),
{
    if links.len() == 0 {
    } else {
        let prefix = links.drop_last();
        let l = links.last();
        let m0 = adjacency_map(prefix);
        let m1 = push_into(m0, l.source@, l.target);
        let m2 = push_into(m1, l.target@, l.source);
        lemma_adjacency_neighbours(prefix, a, b);
        lemma_linked_last(links, a, b);
        let old_list = if m0.contains_key(a) { m0[a] } else { Seq::<String>::empty() };
        assert(lists_neighbour(m0, a, b) <==> has_view(old_list, b));
        if a == l.source@ {
            lemma_has_view_push(old_list, l.target, b);
            if a == l.target@ {
                lemma_has_view_push(old_list.push(l.target), l.source, b);
                assert(m2[a] == old_list.push(l.target).push(l.source));
            } else {
                assert(m2[a] == old_list.push(l.target));
            }
        } else if a == l.target@ {
            lemma_has_view_push(old_list, l.source, b);
            assert(m2[a] == old_list.push(l.source));
        } else {
            assert(m2.contains_key(a) == m0.contains_key(a));
        }
    }
}

/// Adjacency is symmetric: `b` is listed as a neighbour of `a` exactly when
/// `a` is listed as a neighbour of `b`.
pub proof fn lemma_adjacency_symmetric(links: Seq<Link>, a: Seq<char>, b: Seq<char>)
    ensures
        lists_neighbour(adjacency_map(links), a, b) <==> lists_neighbour(adjacency_map(links), b, a),
{
    lemma_adjacency_neighbours(links, a, b);
    lemma_adjacency_neighbours(links, b, a);
    if linked(links, a, b) {
        let i = choose|i: int|
            0 <= i < links.len() && ((#[trigger] links[i].source@ == a && links[i].target@ == b) || (
            links[i].target@ == a && links[i].source@ == b));
        assert(links[i].target@ == b && links[i].source@ == a || links[i].source@ == b && links[i].target@ == a);
    }
    if linked(links, b, a) {
        let i = choose|i: int|
            0 <= i < links.len() && ((#[trigger] links[i].source@ == b && links[i].target@ == a) || (
            links[i].target@ == b && links[i].source@ == a));
        assert(links[i].target@ == a && links[i].source@ == b || links[i].source@ == a && links[i].target@ == b);
    }
}

/// The adjacency list of a node holds one entry per edge end at that node:
/// a self-loop counts twice.
pub proof fn lemma_adjacency_list_len(links: Seq<Link>, k: Seq<char>)
    ensures
        adjacency_map(links).contains_key(k) <==> end_count(links, k) > 0,
        adjacency_map(links).contains_key(k) ==> adjacency_map(links)[k].len() == end_count(links, k),
    decreases links.len(),
{
    if links.len() > 0 {
        lemma_adjacency_list_len(links.drop_last(), k);
    }
}


/// Edge `i` joins `Ni` to `N(i + 1)`, for every edge: the shape of a linear chain.
pub open spec fn is_chain(links: Seq<Link>) -> bool {
    forall|i: int|
        0 <= i < links.len() ==> (#[trigger] links[i]).source@ == indexed_label("N"@, i as nat)
            && links[i].target@ == indexed_label("N"@, (i + 1) as nat)
}

/// Every edge `i` goes from `center` to `ids[i]`: the shape of a star.
pub open spec fn is_star(links: Seq<Link>, center: Seq<char>, ids: Seq<Seq<char>>) -> bool {
    &&& links.len() == ids.len()
    &&& forall|i: int|
        0 <= i < links.len() ==> (#[trigger] links[i]).source@ == center && links[i].target@ == ids[i]
}

/// In a linear chain, node `Nk` is an end of edge `i` exactly when the edge
/// arrives at it (`i + 1 == k`) or leaves it (`i == k`).
pub proof fn lemma_chain_edges_at_node(links: Seq<Link>, k: nat, i: int)
    requires
        is_chain(links),
        0 <= i < links.len(),
    ensures
        touches(links[i], indexed_label("N"@, k)) <==> (i == k || i + 1 == k),
{
    if links[i].source@ == indexed_label("N"@, k) {
        lemma_indexed_label_injective("N"@, i as nat, k);
    }
    if links[i].target@ == indexed_label("N"@, k) {
        lemma_indexed_label_injective("N"@, (i + 1) as nat, k);
    }
}

/// In a linear chain, `Nb` is listed as a neighbour of `Na` exactly when the
/// two are consecutive and an edge joins them.
pub proof fn lemma_chain_neighbours(links: Seq<Link>, a: nat, b: nat)
    requires
        is_chain(links),
    ensures
        lists_neighbour(adjacency_map(links), indexed_label("N"@, a), indexed_label("N"@, b)) <==> ((b == a + 1
            && a < links.len()) || (a == b + 1 && b < links.len())),
{
    let na = indexed_label("N"@, a);
    let nb = indexed_label("N"@, b);
    lemma_adjacency_neighbours(links, na, nb);
    if linked(links, na, nb) {
        let i = choose|i: int|
            0 <= i < links.len() && ((#[trigger] links[i].source@ == na && links[i].target@ == nb) || (
            links[i].target@ == na && links[i].source@ == nb));
        assert(links[i].source@ == indexed_label("N"@, i as nat));
        assert(links[i].target@ == indexed_label("N"@, (i + 1) as nat));
        if links[i].source@ == na && links[i].target@ == nb {
            lemma_indexed_label_injective("N"@, i as nat, a);
            lemma_indexed_label_injective("N"@, (i + 1) as nat, b);
        } else {
            lemma_indexed_label_injective("N"@, i as nat, b);
            lemma_indexed_label_injective("N"@, (i + 1) as nat, a);
        }
    }
    if b == a + 1 && a < links.len() {
        assert(links[a as int].source@ == na && links[a as int].target@ == nb);
    }
    if a == b + 1 && b < links.len() {
        assert(links[b as int].source@ == nb && links[b as int].target@ == na);
    }
}

/// In a star, the center lists exactly the peripheral nodes as neighbours,
/// and each peripheral node lists the center.
pub proof fn lemma_star_neighbours(links: Seq<Link>, center: Seq<char>, ids: Seq<Seq<char>>, b: Seq<char>)
    requires
        is_star(links, center, ids),
    ensures
        lists_neighbour(adjacency_map(links), center, b) <==> ids.contains(b),
        ids.contains(b) ==> lists_neighbour(adjacency_map(links), b, center),
{
    lemma_adjacency_neighbours(links, center, b);
    lemma_adjacency_symmetric(links, center, b);
    if linked(links, center, b) {
        let i = choose|i: int|
            0 <= i < links.len() && ((#[trigger] links[i].source@ == center && links[i].target@ == b) || (
            links[i].target@ == center && links[i].source@ == b));
        assert(links[i].source@ == center && links[i].target@ == ids[i]);
        assert(ids[i] == b);
    }
    if ids.contains(b) {
        let i = choose|i: int| 0 <= i < ids.len() && ids[i] == b;
        assert(links[i].source@ == center && links[i].target@ == b);
    }
}


/// How many strings of `xs` are `b`.
pub open spec fn view_count(xs: Seq<String>, b: Seq<char>) -> nat
    decreases xs.len(),
{
    if xs.len() == 0 {
        0
    } else {
        view_count(xs.drop_last(), b) + if xs.last()@ == b { 1nat } else { 0nat }
    }
}

/// How many edge ends join `a` to `b`: each edge `a -> b` counts once, each
/// edge `b -> a` counts once, so a self-loop at `a` counts twice.
pub open spec fn join_count(links: Seq<Link>, a: Seq<char>, b: Seq<char>) -> nat
    decreases links.len(),
{
    if links.len() == 0 {
        0
    } else {
        let l = links.last();
        join_count(links.drop_last(), a, b) + (if l.source@ == a && l.target@ == b { 1nat } else { 0nat })
            + (if l.target@ == a && l.source@ == b { 1nat } else { 0nat })
    }
}

proof fn lemma_view_count_push(xs: Seq<String>, y: String, b: Seq<char>)
    ensures
        view_count(xs.push(y), b) == view_count(xs, b) + if y@ == b { 1nat } else { 0nat },
{
    assert(xs.push(y).drop_last() =~= xs);
}

/// The adjacency list of `a` names `b` once per edge joining them: as many
/// times as there are edges `a -> b` and `b -> a` (a self-loop twice).
pub proof fn lemma_adjacency_multiplicity(links: Seq<Link>, a: Seq<char>, b: Seq<char>)
    ensures
        view_count(group_or_empty(adjacency_map(links), a), b) == join_count(links, a, b),
    decreases links.len(),
{
    if links.len() > 0 {
        let prefix = links.drop_last();
        let l = links.last();
        lemma_adjacency_multiplicity(prefix, a, b);
        let m0 = adjacency_map(prefix);
        let m1 = push_into(m0, l.source@, l.target);
        let l0 = group_or_empty(m0, a);
        let l1 = group_or_empty(m1, a);
        if a == l.source@ {
            assert(l1 == l0.push(l.target));
            lemma_view_count_push(l0, l.target, b);
        } else {
            assert(l1 == l0);
        }
        if a == l.target@ {
            lemma_view_count_push(l1, l.source, b);
        }
    }
}

/// A chain of `n_values` nodes and `n_conductances` conductances has edge
/// `i` exactly when conductance `i` exists and node `i + 1` exists.
pub proof fn lemma_chain_link_count(n_values: nat, n_conductances: nat, i: nat)
    ensures
        i < chain_link_count(n_values, n_conductances) <==> (i < n_conductances && i + 1 < n_values),
{
}

} // verus!
