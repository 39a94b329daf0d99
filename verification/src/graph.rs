//! Undirected simple graphs over `u32` node identifiers.
//!
//! A graph is kept as a strictly sorted vector of node identifiers with a
//! parallel vector of strictly sorted neighbour lists.  Its mathematical
//! model is a finite, symmetric, irreflexive adjacency map
//! `Map<u32, Set<u32>>`.  Keeping the node order canonical makes every
//! operation a pure function of that model, which the greedy solver needs
//! for reproducible output.
//!
//! Self-loops are never stored: `add_edge(v, v)` leaves the graph unchanged
//! and reports that no edge was created.

use vstd::prelude::*;
use vstd::string::StrSliceExecFns;

verus! {

/// Failure of a graph operation: an endpoint is not a node of the graph.
#[derive(Debug, Clone, Copy, PartialEq, Eq, Structural)]
pub enum GraphError {
    UnknownNode,
}

/// The sequence is strictly increasing.
pub open spec fn strict_sorted(s: Seq<u32>) -> bool {
    forall|i: int, j: int| 0 <= i < j < s.len() ==> s[i] < s[j]
}

/// A finite, symmetric, irreflexive adjacency map whose neighbours are
/// themselves nodes: the model of a well-formed [`Graph`].
pub open spec fn wf_map(m: Map<u32, Set<u32>>) -> bool {
    &&& m.dom().finite()
    &&& forall|v: u32| m.dom().contains(v) ==> (#[trigger] m[v]).finite()
    &&& forall|x: u32, y: u32|
        m.dom().contains(x) && #[trigger] m[x].contains(y) ==> m.dom().contains(y)
            && m[y].contains(x)
    &&& forall|v: u32| m.dom().contains(v) ==> !(#[trigger] m[v]).contains(v)
}

/// The map after `add_node`: a fresh node starts with no neighbours and
/// adding an existing node changes nothing.
pub open spec fn spec_add_node(m: Map<u32, Set<u32>>, v: u32) -> Map<u32, Set<u32>> {
    if m.dom().contains(v) {
        m
    } else {
        m.insert(v, Set::empty())
    }
}

/// An adjacency representation of an undirected simple graph.
///
/// The neighbour lists are kept sorted so that all queries enumerate nodes
/// in one canonical order.
#[derive(Debug, Clone, PartialEq)]
pub struct Graph {
    nodes: Vec<u32>,
    adj: Vec<Vec<u32>>,
}

impl View for Graph {
    type V = Map<u32, Set<u32>>;

    closed spec fn view(&self) -> Map<u32, Set<u32>> {
        Map::new(
            |v: u32| self.nodes@.contains(v),
            |v: u32| self.adj@[self.idx_of(v)]@.to_set(),
        )
    }
}

impl Graph {
    /// Position of node `v` in the sorted node list.
    pub closed spec fn idx_of(self, v: u32) -> int {
        choose|i: int| 0 <= i < self.nodes@.len() && self.nodes@[i] == v
    }

    /// The representation invariant: parallel vectors, all strictly sorted.
    pub closed spec fn rep(self) -> bool {
        &&& self.adj@.len() == self.nodes@.len()
        &&& strict_sorted(self.nodes@)
        &&& forall|i: int| 0 <= i < self.adj@.len() ==> strict_sorted(#[trigger] self.adj@[i]@)
    }

    /// A valid graph: canonical representation and a well-formed model.
    pub open spec fn wf(self) -> bool {
        &&& self.rep()
        &&& wf_map(self@)
    }

    /// With a strictly sorted node list, `idx_of` inverts indexing.
    proof fn lemma_idx(self, i: int)
        requires
            strict_sorted(self.nodes@),
            0 <= i < self.nodes@.len(),
        ensures
            self.idx_of(self.nodes@[i]) == i,
    {
        assert(self.nodes@.contains(self.nodes@[i]));
        let j = self.idx_of(self.nodes@[i]);
        assert(0 <= j < self.nodes@.len() && self.nodes@[j] == self.nodes@[i]);
        if i < j {
            assert(self.nodes@[i] < self.nodes@[j]);
        }
        if j < i {
            assert(self.nodes@[j] < self.nodes@[i]);
        }
    }

    /// The model's domain is exactly the node list.
    proof fn lemma_view_dom(self)
        ensures
            self@.dom() =~= self.nodes@.to_set(),
    {
    }

    /// The model's neighbour set of the `i`-th node is the `i`-th list.
    proof fn lemma_view_at(self, i: int)
        requires
            strict_sorted(self.nodes@),
            0 <= i < self.nodes@.len(),
        ensures
            self@.dom().contains(self.nodes@[i]),
            self@[self.nodes@[i]] == self.adj@[i]@.to_set(),
    {
        assert(self.nodes@.contains(self.nodes@[i]));
        self.lemma_idx(i);
    }

    /// A well-formed representation yields a well-formed model.
    proof fn lemma_rep_view_finite(self)
        requires
            self.rep(),
        ensures
            self@.dom().finite(),
            forall|v: u32| self@.dom().contains(v) ==> (#[trigger] self@[v]).finite(),
    {
        broadcast use vstd::seq_lib::seq_to_set_is_finite;

        self.lemma_view_dom();
        assert forall|v: u32| self@.dom().contains(v) implies (#[trigger] self@[v]).finite() by {
            let i = self.idx_of(v);
            assert(self.nodes@.contains(v));
            assert(0 <= i < self.nodes@.len() && self.nodes@[i] == v);
            assert(self@[v] == self.adj@[i]@.to_set());
        }
    }

    /// Creates an empty graph.
    pub fn new() -> (g: Graph)
        ensures
            g@ == Map::<u32, Set<u32>>::empty(),
            g.wf(),
    {
        let g = Graph { nodes: Vec::new(), adj: Vec::new() };
        proof {
            assert(g@ =~= Map::<u32, Set<u32>>::empty());
            g.lemma_rep_view_finite();
        }
        g
    }

    /// Adds `node` to the graph with no neighbours.  Adding a node that is
    /// already present leaves the graph unchanged.
    pub fn add_node(&mut self, node: u32)
        requires
            old(self).wf(),
        ensures
            final(self).wf(),
            final(self)@ == spec_add_node(old(self)@, node),
    {
        let mut i: usize = 0;
        while i < self.nodes.len() && self.nodes[i] < node
            invariant
                i <= self.nodes@.len(),
                forall|k: int| 0 <= k < i ==> self.nodes@[k] < node,
                *self == *old(self),
            decreases self.nodes@.len() - i,
        {
            i += 1;
        }
        if i < self.nodes.len() && self.nodes[i] == node {
            proof {
                assert(self.nodes@.contains(node));
                assert(self@ == spec_add_node(old(self)@, node));
            }
            return ;
        }
        proof {
            assert(!self.nodes@.contains(node)) by {
                if self.nodes@.contains(node) {
                    let k = choose|k: int|
                        0 <= k < self.nodes@.len() && self.nodes@[k] == node;
                    if k < i as int {
                        assert(self.nodes@[k] < node);
                    } else {
                        assert(i < self.nodes@.len());
                        if (i as int) < k {
                            assert(self.nodes@[i as int] < self.nodes@[k]);
                        }
                    }
                }
            }
            old(self).lemma_view_dom();
            assert(!old(self)@.dom().contains(node));
        }
        let ghost pre = *self;
        self.nodes.insert(i, node);
        self.adj.insert(i, Vec::new());
        proof {
            let s0 = pre.nodes@;
            let s1 = self.nodes@;
            assert(strict_sorted(s1)) by {
                assert forall|p: int, q: int| 0 <= p < q < s1.len() implies s1[p] < s1[q] by {
                    if q < i as int {
                        assert(s1[p] == s0[p] && s1[q] == s0[q]);
                    } else if p > i as int {
                        assert(s1[p] == s0[p - 1] && s1[q] == s0[q - 1]);
                    } else if p < i as int && q == i as int {
                        assert(s1[p] == s0[p] && s0[p] < node);
                    } else if p == i as int && q > i as int {
                        assert(s1[q] == s0[q - 1]);
                        assert(q - 1 >= i as int);
                        if i < s0.len() {
                            assert(s0[i as int] != node && !(s0[i as int] < node));
                            assert(node < s0[i as int]);
                            if q - 1 > i as int {
                                assert(s0[i as int] < s0[q - 1]);
                            }
                        }
                    } else if p < i as int && q > i as int {
                        assert(s1[p] == s0[p] && s0[p] < node);
                        assert(s1[q] == s0[q - 1]);
                        assert(node < s1[q]) by {
                            if i < s0.len() {
                                assert(!(s0[i as int] < node) && s0[i as int] != node);
                                if q - 1 > i as int {
                                    assert(s0[i as int] < s0[q - 1]);
                                }
                            }
                        }
                    }
                }
            }
            assert(self.rep());
            assert(self@ =~= spec_add_node(pre@, node)) by {
                assert forall|w: u32| #![all_triggers] true implies {
                    &&& self@.dom().contains(w) <==> spec_add_node(pre@, node).dom().contains(w)
                    &&& (self@.dom().contains(w) ==> self@[w] == spec_add_node(pre@, node)[w])
                } by {
                    if w == node {
                        self.lemma_idx(i as int);
                        assert(self@[node] == self.adj@[i as int]@.to_set());
                        assert(self.adj@[i as int]@.to_set() =~= Set::<u32>::empty());
                    } else {
                        if pre.nodes@.contains(w) {
                            let k = choose|k: int|
                                0 <= k < pre.nodes@.len() && pre.nodes@[k] == w;
                            pre.lemma_idx(k);
                            pre.lemma_view_at(k);
                            if k < i as int {
                                self.lemma_view_at(k);
                                assert(self.nodes@[k] == pre.nodes@[k]);
                                assert(self.adj@[k] == pre.adj@[k]);
                            } else {
                                self.lemma_view_at(k + 1);
                                assert(self.nodes@[k + 1] == pre.nodes@[k]);
                                assert(self.adj@[k + 1] == pre.adj@[k]);
                            }
                            assert(self.nodes@.contains(w));
                        } else {
                            if self.nodes@.contains(w) {
                                let k = choose|k: int|
                                    0 <= k < self.nodes@.len() && self.nodes@[k] == w;
                                if k < i as int {
                                    assert(pre.nodes@[k] == w);
                                    assert(pre.nodes@.contains(w));
                                } else {
                                    assert(k > i as int);
                                    assert(pre.nodes@[k - 1] == w);
                                    assert(pre.nodes@.contains(w));
                                }
                            }
                        }
                    }
                }
            }
            assert(wf_map(self@)) by {
                lemma_add_node_wf(pre@, node);
            }
        }
    }
}

/// The map after `add_edge(a, b)`: each endpoint joins the other's
/// neighbour set.  A self-loop is ignored.
pub open spec fn spec_add_edge(m: Map<u32, Set<u32>>, a: u32, b: u32) -> Map<u32, Set<u32>> {
    if a == b {
        m
    } else {
        m.insert(a, m[a].insert(b)).insert(b, m[b].insert(a))
    }
}

/// The largest neighbour-set size over the map's domain, or `0` for the
/// empty map.
pub open spec fn spec_max_degree(m: Map<u32, Set<u32>>) -> nat
    decreases m.dom().len() when m.dom().finite()
{
    if m.dom().finite() && m.dom().len() > 0 {
        let v = m.dom().choose();
        let rest = spec_max_degree(m.remove(v));
        if m[v].len() >= rest {
            m[v].len()
        } else {
            rest
        }
    } else {
        0
    }
}

/// A finite nonempty set contains its `choose` witness.
pub(crate) proof fn lemma_nonempty_choose<A>(s: Set<A>)
    requires
        s.finite(),
        s.len() > 0,
    ensures
        s.contains(s.choose()),
{
    if !(exists|x: A| s.contains(x)) {
        assert(s =~= Set::empty());
    }
}

/// `spec_max_degree` bounds every degree and is attained on a nonempty map.
pub proof fn lemma_max_degree_bounds(m: Map<u32, Set<u32>>)
    requires
        m.dom().finite(),
    ensures
        forall|v: u32| m.dom().contains(v) ==> (#[trigger] m[v]).len() <= spec_max_degree(m),
        m.dom().len() > 0 ==> exists|v: u32|
            m.dom().contains(v) && (#[trigger] m[v]).len() == spec_max_degree(m),
        m.dom().len() == 0 ==> spec_max_degree(m) == 0,
    decreases m.dom().len(),
{
    if m.dom().len() > 0 {
        let v = m.dom().choose();
        lemma_nonempty_choose(m.dom());
        let m2 = m.remove(v);
        assert(m2.dom() =~= m.dom().remove(v));
        lemma_max_degree_bounds(m2);
        let d = spec_max_degree(m);
        assert forall|w: u32| m.dom().contains(w) implies (#[trigger] m[w]).len() <= d by {
            if w != v {
                assert(m2.dom().contains(w));
                assert(m2[w] == m[w]);
            }
        }
        if m[v].len() >= spec_max_degree(m2) {
            assert(m.dom().contains(v) && m[v].len() == d);
        } else {
            let w = choose|w: u32|
                m2.dom().contains(w) && (#[trigger] m2[w]).len() == spec_max_degree(m2);
            assert(m.dom().contains(w) && m[w].len() == d);
        }
    }
}

/// A value that bounds every degree and is attained (or zero) is the
/// maximum degree.
pub proof fn lemma_max_degree_is(m: Map<u32, Set<u32>>, d: nat)
    requires
        m.dom().finite(),
        forall|v: u32| m.dom().contains(v) ==> (#[trigger] m[v]).len() <= d,
        d == 0 || exists|v: u32| m.dom().contains(v) && (#[trigger] m[v]).len() == d,
    ensures
        spec_max_degree(m) == d,
{
    lemma_max_degree_bounds(m);
    if d != 0 {
        let v = choose|v: u32| m.dom().contains(v) && (#[trigger] m[v]).len() == d;
        assert(m[v].len() <= spec_max_degree(m));
    } else {
        if m.dom().len() > 0 {
            let v = choose|v: u32|
                m.dom().contains(v) && (#[trigger] m[v]).len() == spec_max_degree(m);
            assert(m[v].len() <= d);
        }
    }
}

/// A strictly sorted sequence has no duplicates, so its set has the same
/// cardinality.
pub(crate) proof fn lemma_sorted_set_len(s: Seq<u32>)
    requires
        strict_sorted(s),
    ensures
        s.to_set().finite(),
        s.to_set().len() == s.len(),
{
    broadcast use vstd::seq_lib::seq_to_set_is_finite;

    assert(s.no_duplicates()) by {
        assert forall|i: int, j: int|
            0 <= i < s.len() && 0 <= j < s.len() && i != j implies s[i] != s[j] by {
            if i < j {
                assert(s[i] < s[j]);
            } else {
                assert(s[j] < s[i]);
            }
        }
    }
    s.unique_seq_to_set();
}

/// Inserting into a sequence inserts into its set.
proof fn lemma_seq_insert_to_set(s: Seq<u32>, i: int, x: u32)
    requires
        0 <= i <= s.len(),
    ensures
        s.insert(i, x).to_set() =~= s.to_set().insert(x),
{
    let s2 = s.insert(i, x);
    assert forall|y: u32| s2.to_set().contains(y) implies s.to_set().insert(x).contains(y) by {
        let k = choose|k: int| 0 <= k < s2.len() && s2[k] == y;
        if k < i {
            assert(s[k] == y);
        } else if k > i {
            assert(s[k - 1] == y);
        }
    }
    assert forall|y: u32| s.to_set().insert(x).contains(y) implies s2.to_set().contains(y) by {
        if y == x {
            assert(s2[i] == x);
        } else {
            let k = choose|k: int| 0 <= k < s.len() && s[k] == y;
            if k < i {
                assert(s2[k] == y);
            } else {
                assert(s2[k + 1] == y);
            }
        }
    }
}

/// Whether `x` occurs in `v`.
pub(crate) fn vec_mem(v: &Vec<u32>, x: u32) -> (r: bool)
    ensures
        r == v@.contains(x),
{
    let mut i: usize = 0;
    while i < v.len()
        invariant
            i <= v@.len(),
            forall|k: int| 0 <= k < i ==> v@[k] != x,
        decreases v@.len() - i,
    {
        if v[i] == x {
            return true;
        }
        i += 1;
    }
    false
}

/// A copy of `v` in the same order.
fn clone_vec_u32(v: &Vec<u32>) -> (r: Vec<u32>)
    ensures
        r@ == v@,
{
    let mut r: Vec<u32> = Vec::new();
    let mut i: usize = 0;
    while i < v.len()
        invariant
            i <= v@.len(),
            r@ == v@.take(i as int),
        decreases v@.len() - i,
    {
        r.push(v[i]);
        proof {
            assert(r@ =~= v@.take(i as int + 1));
        }
        i += 1;
    }
    proof {
        assert(v@.take(v@.len() as int) =~= v@);
    }
    r
}

/// Inserts `x` into the strictly sorted vector `v`, keeping it sorted.
/// Reports whether `x` was new.
fn insert_sorted(v: &mut Vec<u32>, x: u32) -> (added: bool)
    requires
        strict_sorted(old(v)@),
    ensures
        strict_sorted(final(v)@),
        final(v)@.to_set() == old(v)@.to_set().insert(x),
        added == !old(v)@.contains(x),
        final(v)@.contains(x),
        !added ==> final(v)@ == old(v)@,
{
    let mut i: usize = 0;
    while i < v.len() && v[i] < x
        invariant
            i <= v@.len(),
            forall|k: int| 0 <= k < i ==> v@[k] < x,
            *v == *old(v),
        decreases v@.len() - i,
    {
        i += 1;
    }
    if i < v.len() && v[i] == x {
        proof {
            assert(v@.contains(x));
            assert(v@.to_set() =~= v@.to_set().insert(x));
        }
        return false;
    }
    proof {
        assert(!v@.contains(x)) by {
            if v@.contains(x) {
                let k = choose|k: int| 0 <= k < v@.len() && v@[k] == x;
                if k < i as int {
                    assert(v@[k] < x);
                } else {
                    assert(i < v@.len());
                    if (i as int) < k {
                        assert(v@[i as int] < v@[k]);
                    }
                }
            }
        }
    }
    let ghost s0 = v@;
    v.insert(i, x);
    proof {
        let s1 = v@;
        assert(strict_sorted(s1)) by {
            assert forall|p: int, q: int| 0 <= p < q < s1.len() implies s1[p] < s1[q] by {
                if q < i as int {
                    assert(s1[p] == s0[p] && s1[q] == s0[q]);
                } else if p > i as int {
                    assert(s1[p] == s0[p - 1] && s1[q] == s0[q - 1]);
                } else if p < i as int && q == i as int {
                    assert(s1[p] == s0[p] && s0[p] < x);
                } else if p == i as int && q > i as int {
                    assert(s1[q] == s0[q - 1]);
                    if i < s0.len() {
                        assert(!(s0[i as int] < x) && s0[i as int] != x);
                        if q - 1 > i as int {
                            assert(s0[i as int] < s0[q - 1]);
                        }
                    }
                } else if p < i as int && q > i as int {
                    assert(s1[p] == s0[p] && s0[p] < x);
                    assert(s1[q] == s0[q - 1]);
                    if i < s0.len() {
                        assert(!(s0[i as int] < x) && s0[i as int] != x);
                        if q - 1 > i as int {
                            assert(s0[i as int] < s0[q - 1]);
                        }
                    }
                }
            }
        }
        lemma_seq_insert_to_set(s0, i as int, x);
        assert(s1[i as int] == x);
        assert(s1.contains(x));
    }
    true
}

/// A copy of `v` without the values `a` and `b`; order is kept.
fn copy_excl2(v: &Vec<u32>, a: u32, b: u32) -> (r: Vec<u32>)
    requires
        strict_sorted(v@),
    ensures
        strict_sorted(r@),
        r@.to_set() == v@.to_set().remove(a).remove(b),
    decreases v@.len(),
{
    let mut r: Vec<u32> = Vec::new();
    let mut i: usize = 0;
    while i < v.len()
        invariant
            i <= v@.len(),
            strict_sorted(v@),
            strict_sorted(r@),
            r@.to_set() =~= v@.take(i as int).to_set().remove(a).remove(b),
            forall|p: int, k: int|
                #![trigger r@[p], v@[k]]
                0 <= p < r@.len() && i <= k < v@.len() ==> r@[p] < v@[k],
        decreases v@.len() - i,
    {
        let x = v[i];
        proof {
            assert(v@.take(i as int + 1) =~= v@.take(i as int).push(x));
            assert(v@.take(i as int).push(x).to_set() =~= v@.take(i as int).to_set().insert(x))
                by {
                lemma_seq_insert_to_set(v@.take(i as int), i as int, x);
                assert(v@.take(i as int).insert(i as int, x) =~= v@.take(i as int).push(x));
            }
        }
        if x != a && x != b {
            let ghost r0 = r@;
            r.push(x);
            proof {
                assert forall|p: int, q: int| 0 <= p < q < r@.len() implies r@[p] < r@[q] by {
                    if q == r@.len() - 1 {
                        assert(r@[p] == r0[p] && r@[q] == x);
                        assert(r0[p] < v@[i as int]);
                    }
                }
                assert(r@.to_set() =~= r0.to_set().insert(x)) by {
                    lemma_seq_insert_to_set(r0, r0.len() as int, x);
                    assert(r0.insert(r0.len() as int, x) =~= r0.push(x));
                }
                assert(r@.to_set() =~= v@.take(i as int + 1).to_set().remove(a).remove(b));
                assert forall|p: int, k: int|
                    #![trigger r@[p], v@[k]]
                    0 <= p < r@.len() && i + 1 <= k < v@.len() implies r@[p] < v@[k] by {
                    if p < r@.len() - 1 {
                        assert(r@[p] == r0[p]);
                    } else {
                        assert(r@[p] == v@[i as int]);
                    }
                }
            }
        } else {
            proof {
                assert(r@.to_set() =~= v@.take(i as int + 1).to_set().remove(a).remove(b));
            }
        }
        i += 1;
    }
    proof {
        assert(v@.take(v@.len() as int) =~= v@);
    }
    r
}

impl Graph {
    /// Position of `v` in the node list, if present.
    fn find(&self, v: u32) -> (r: Option<usize>)
        ensures
            match r {
                Some(i) => i < self.nodes@.len() && self.nodes@[i as int] == v,
                None => !self.nodes@.contains(v),
            },
    {
        let mut i: usize = 0;
        while i < self.nodes.len()
            invariant
                i <= self.nodes@.len(),
                forall|k: int| 0 <= k < i ==> self.nodes@[k] != v,
            decreases self.nodes@.len() - i,
        {
            if self.nodes[i] == v {
                return Some(i);
            }
            i += 1;
        }
        None
    }

    /// Adds the undirected edge `{node_a, node_b}`.  Returns whether the
    /// edge is new; fails when either endpoint is not a node.  A self-loop
    /// (`node_a == node_b`) is ignored and reported as not new.
    pub fn add_edge(&mut self, node_a: u32, node_b: u32) -> (r: Result<bool, GraphError>)
        requires
            old(self).wf(),
        ensures
            final(self).wf(),
            match r {
                Ok(added) => {
                    &&& old(self)@.dom().contains(node_a)
                    &&& old(self)@.dom().contains(node_b)
                    &&& final(self)@ == spec_add_edge(old(self)@, node_a, node_b)
                    &&& added == (node_a != node_b && !old(self)@[node_a].contains(node_b))
                },
                Err(e) => {
                    &&& e == GraphError::UnknownNode
                    &&& !(old(self)@.dom().contains(node_a) && old(self)@.dom().contains(
                        node_b,
                    ))
                    &&& final(self)@ == old(self)@
                },
            },
    {
        proof {
            self.lemma_view_dom();
        }
        let ia = match self.find(node_a) {
            Some(i) => i,
            None => {
                return Err(GraphError::UnknownNode);
            },
        };
        let ib = match self.find(node_b) {
            Some(i) => i,
            None => {
                return Err(GraphError::UnknownNode);
            },
        };
        if node_a == node_b {
            return Ok(false);
        }
        let ghost pre = *self;
        proof {
            pre.lemma_idx(ia as int);
            pre.lemma_idx(ib as int);
            pre.lemma_view_at(ia as int);
            pre.lemma_view_at(ib as int);
        }
        let mut la: Vec<u32> = Vec::new();
        self.adj.set_and_swap(ia, &mut la);
        let added_a = insert_sorted(&mut la, node_b);
        self.adj.set(ia, la);
        let mut lb: Vec<u32> = Vec::new();
        self.adj.set_and_swap(ib, &mut lb);
        let added_b = insert_sorted(&mut lb, node_a);
        self.adj.set(ib, lb);
        proof {
            let m0 = pre@;
            let m2 = spec_add_edge(m0, node_a, node_b);
            assert(ia != ib);
            assert(self.adj@[ia as int]@.to_set() == m0[node_a].insert(node_b));
            assert(self.adj@[ib as int]@.to_set() == m0[node_b].insert(node_a));
            assert(forall|k: int|
                0 <= k < self.adj@.len() && k != ia as int && k != ib as int
                    ==> self.adj@[k] == pre.adj@[k]);
            assert(self.rep());
            assert(self@ =~= m2) by {
                assert(m2.dom() =~= m0.dom());
                assert forall|w: u32| #![all_triggers] true implies {
                    &&& (self@.dom().contains(w) <==> m2.dom().contains(w))
                    &&& (self@.dom().contains(w) ==> self@[w] == m2[w])
                } by {
                    if self.nodes@.contains(w) {
                        let k = choose|k: int|
                            0 <= k < self.nodes@.len() && self.nodes@[k] == w;
                        pre.lemma_view_at(k);
                        self.lemma_view_at(k);
                        if k == ia as int {
                            assert(w == node_a);
                        } else if k == ib as int {
                            assert(w == node_b);
                        } else {
                            assert(self.adj@[k] == pre.adj@[k]);
                        }
                    }
                }
            }
            assert(wf_map(self@)) by {
                lemma_add_edge_wf(m0, node_a, node_b);
            }
            assert(added_a == !m0[node_a].contains(node_b));
            assert(added_b == !m0[node_b].contains(node_a));
            assert(m0[node_b].contains(node_a) == m0[node_a].contains(node_b));
        }
        Ok(added_a || added_b)
    }

    /// Adds an edge whose endpoints are known to be distinct nodes.
    pub(crate) fn insert_edge(&mut self, node_a: u32, node_b: u32)
        requires
            old(self).wf(),
            old(self)@.dom().contains(node_a),
            old(self)@.dom().contains(node_b),
            node_a != node_b,
        ensures
            final(self).wf(),
            final(self)@ == spec_add_edge(old(self)@, node_a, node_b),
    {
        let r = self.add_edge(node_a, node_b);
        match r {
            Ok(_) => (),
            Err(_) => {
                proof {
                    assert(false);
                }
            },
        }
    }

    /// The sorted neighbour list of a node known to be present.
    pub(crate) fn neighbours_present(&self, node: u32) -> (r: &Vec<u32>)
        requires
            self.wf(),
            self@.dom().contains(node),
        ensures
            strict_sorted(r@),
            r@.to_set() == self@[node],
    {
        match self.get_neighbours(node) {
            Ok(nbrs) => nbrs,
            Err(_) => {
                proof {
                    assert(false);
                }
                vstd::pervasive::unreached()
            },
        }
    }

    /// The sorted neighbour list of `node`; fails when `node` is not a
    /// node of the graph.
    pub fn get_neighbours(&self, node: u32) -> (r: Result<&Vec<u32>, GraphError>)
        requires
            self.wf(),
        ensures
            match r {
                Ok(nbrs) => {
                    &&& self@.dom().contains(node)
                    &&& strict_sorted(nbrs@)
                    &&& nbrs@.to_set() == self@[node]
                },
                Err(e) => e == GraphError::UnknownNode && !self@.dom().contains(node),
            },
    {
        proof {
            self.lemma_view_dom();
        }
        match self.find(node) {
            Some(i) => {
                proof {
                    self.lemma_idx(i as int);
                    self.lemma_view_at(i as int);
                }
                Ok(&self.adj[i])
            },
            None => Err(GraphError::UnknownNode),
        }
    }

    /// All node identifiers, in increasing order.
    pub fn get_all_nodes(&self) -> (r: Vec<u32>)
        requires
            self.wf(),
        ensures
            strict_sorted(r@),
            r@.to_set() == self@.dom(),
            r@.len() == self@.dom().len(),
    {
        let r = clone_vec_u32(&self.nodes);
        proof {
            self.lemma_view_dom();
            lemma_sorted_set_len(self.nodes@);
        }
        r
    }

    /// The largest number of neighbours of any node, or `0` for the empty
    /// graph.
    pub fn get_max_degree(&self) -> (r: usize)
        requires
            self.wf(),
        ensures
            r as nat == spec_max_degree(self@),
    {
        let mut best: usize = 0;
        let mut i: usize = 0;
        while i < self.adj.len()
            invariant
                self.wf(),
                i <= self.adj@.len(),
                forall|k: int| 0 <= k < i ==> (#[trigger] self.adj@[k])@.len() <= best,
                best == 0 || exists|k: int|
                    0 <= k < i && (#[trigger] self.adj@[k])@.len() == best,
            decreases self.adj@.len() - i,
        {
            if self.adj[i].len() > best {
                best = self.adj[i].len();
            }
            i += 1;
        }
        proof {
            let m = self@;
            self.lemma_rep_view_finite();
            assert forall|v: u32| m.dom().contains(v) implies (#[trigger] m[v]).len()
                <= best as nat by {
                self.lemma_view_dom();
                let k = choose|k: int| 0 <= k < self.nodes@.len() && self.nodes@[k] == v;
                self.lemma_view_at(k);
                lemma_sorted_set_len(self.adj@[k]@);
            }
            if best > 0 {
                let k = choose|k: int|
                    0 <= k < i && (#[trigger] self.adj@[k])@.len() == best;
                self.lemma_view_at(k);
                lemma_sorted_set_len(self.adj@[k]@);
                assert(m.dom().contains(self.nodes@[k]) && m[self.nodes@[k]].len()
                    == best as nat);
            }
            lemma_max_degree_is(m, best as nat);
        }
        best
    }

    /// A copy of the graph with the same model.
    pub fn duplicate(&self) -> (r: Graph)
        requires
            self.wf(),
        ensures
            r.wf(),
            r@ == self@,
    {
        let nodes2 = clone_vec_u32(&self.nodes);
        let mut adj2: Vec<Vec<u32>> = Vec::new();
        let mut i: usize = 0;
        while i < self.adj.len()
            invariant
                self.wf(),
                i <= self.adj@.len(),
                adj2@.len() == i,
                forall|k: int| 0 <= k < i ==> (#[trigger] adj2@[k])@ == self.adj@[k]@,
            decreases self.adj@.len() - i,
        {
            adj2.push(clone_vec_u32(&self.adj[i]));
            i += 1;
        }
        let r = Graph { nodes: nodes2, adj: adj2 };
        proof {
            assert(r.rep());
            assert(r@ =~= self@) by {
                assert forall|w: u32| #![all_triggers] true implies {
                    &&& (r@.dom().contains(w) <==> self@.dom().contains(w))
                    &&& (r@.dom().contains(w) ==> r@[w] == self@[w])
                } by {
                    if r.nodes@.contains(w) {
                        let k = choose|k: int|
                            0 <= k < r.nodes@.len() && r.nodes@[k] == w;
                        r.lemma_view_at(k);
                        self.lemma_view_at(k);
                        assert(r.adj@[k]@.to_set() =~= self.adj@[k]@.to_set());
                    }
                }
            }
        }
        r
    }
}

/// The map after `contract_nodes(a, b)`: `b` is gone, `a` owns the union
/// of the two neighbourhoods, and every other mention of `b` is rewritten
/// to `a`.
pub open spec fn spec_contract(m: Map<u32, Set<u32>>, a: u32, b: u32) -> Map<u32, Set<u32>> {
    Map::new(
        |v: u32| m.dom().contains(v) && v != b,
        |v: u32|
            if v == a {
                m[a].union(m[b]).remove(a).remove(b)
            } else if m[v].contains(b) {
                m[v].remove(b).insert(a)
            } else {
                m[v]
            },
    )
}

/// `spec_contract` drops exactly `b` from the domain and preserves
/// well-formedness of the model.
pub proof fn lemma_contract_wf(m: Map<u32, Set<u32>>, a: u32, b: u32)
    requires
        wf_map(m),
        m.dom().contains(a),
        m.dom().contains(b),
        a != b,
    ensures
        spec_contract(m, a, b).dom() =~= m.dom().remove(b),
        wf_map(spec_contract(m, a, b)),
{
    let m2 = spec_contract(m, a, b);
    assert(m2.dom() =~= m.dom().remove(b));
    assert forall|v: u32| m2.dom().contains(v) implies (#[trigger] m2[v]).finite() by {
        if v == a {
        } else if m[v].contains(b) {
        }
    }
    assert forall|x: u32, y: u32|
        m2.dom().contains(x) && #[trigger] m2[x].contains(y) implies m2.dom().contains(y)
        && m2[y].contains(x) by {
        if x == a {
            assert(m[a].contains(y) || m[b].contains(y));
            assert(y != a && y != b);
            assert(m.dom().contains(y));
            if m[y].contains(b) {
                assert(m2[y] == m[y].remove(b).insert(a));
            } else {
                assert(!m[b].contains(y));
                assert(m[a].contains(y));
                assert(m[y].contains(a));
                assert(m2[y] == m[y]);
            }
        } else {
            let keep = !m[x].contains(b);
            assert(x != b);
            if y == a {
                assert(m2.dom().contains(a));
                if keep {
                    assert(m[x].contains(a));
                    assert(m[a].contains(x));
                    assert(m2[a].contains(x));
                } else {
                    assert(m[b].contains(x));
                    assert(m2[a].contains(x));
                }
            } else {
                assert(y != b) by {
                    if keep {
                        assert(m[x].contains(y));
                    } else {
                        assert(m[x].remove(b).insert(a).contains(y));
                        assert(y != a ==> m[x].remove(b).contains(y));
                    }
                }
                assert(m[x].contains(y)) by {
                    if !keep {
                        assert(m[x].remove(b).insert(a).contains(y));
                    }
                }
                assert(m.dom().contains(y) && m[y].contains(x));
                if m[y].contains(b) {
                    assert(m2[y] == m[y].remove(b).insert(a));
                } else {
                    assert(m2[y] == m[y]);
                }
            }
        }
    }
    assert forall|v: u32| m2.dom().contains(v) implies !(#[trigger] m2[v]).contains(v) by {
        if v == a {
        } else if m[v].contains(b) {
            assert(v != a && !m[v].contains(v));
        }
    }
}

/// The neighbour set of a node after the `b`-to-`a` rewrite of a
/// contraction.
pub open spec fn spec_rewrite(s: Set<u32>, a: u32, b: u32) -> Set<u32> {
    if s.contains(b) {
        s.remove(b).insert(a)
    } else {
        s
    }
}

/// Removing an element of a strictly sorted sequence keeps it strictly
/// sorted.
proof fn lemma_sorted_remove(s: Seq<u32>, i: int)
    requires
        strict_sorted(s),
        0 <= i < s.len(),
    ensures
        strict_sorted(s.remove(i)),
{
    let s2 = s.remove(i);
    assert forall|p: int, q: int| 0 <= p < q < s2.len() implies s2[p] < s2[q] by {
        if q < i {
            assert(s2[p] == s[p] && s2[q] == s[q]);
        } else if p >= i {
            assert(s2[p] == s[p + 1] && s2[q] == s[q + 1]);
        } else {
            assert(s2[p] == s[p] && s2[q] == s[q + 1]);
        }
    }
}

impl Graph {
    /// Merges node `node_b` into node `node_a`: `node_a` keeps the union
    /// of both neighbourhoods, `node_b` disappears, and every other
    /// neighbour list mentioning `node_b` now mentions `node_a`.  Fails
    /// when either endpoint is not a node.
    pub fn contract_nodes(&mut self, node_a: u32, node_b: u32) -> (r: Result<(), GraphError>)
        requires
            old(self).wf(),
            node_a != node_b,
        ensures
            final(self).wf(),
            match r {
                Ok(_) => {
                    &&& old(self)@.dom().contains(node_a)
                    &&& old(self)@.dom().contains(node_b)
                    &&& final(self)@ == spec_contract(old(self)@, node_a, node_b)
                },
                Err(e) => {
                    &&& e == GraphError::UnknownNode
                    &&& !(old(self)@.dom().contains(node_a) && old(self)@.dom().contains(
                        node_b,
                    ))
                    &&& final(self)@ == old(self)@
                },
            },
    {
        proof {
            self.lemma_view_dom();
        }
        let ia = match self.find(node_a) {
            Some(i) => i,
            None => {
                return Err(GraphError::UnknownNode);
            },
        };
        let ib = match self.find(node_b) {
            Some(i) => i,
            None => {
                return Err(GraphError::UnknownNode);
            },
        };
        let ghost pre = *self;
        let ghost m = pre@;
        proof {
            pre.lemma_idx(ia as int);
            pre.lemma_idx(ib as int);
            pre.lemma_view_at(ia as int);
            pre.lemma_view_at(ib as int);
            assert(ia != ib);
        }
        // The merged neighbourhood of the surviving node.
        let mut merged = copy_excl2(&self.adj[ia], node_a, node_b);
        let mut j: usize = 0;
        while j < self.adj[ib].len()
            invariant
                *self == pre,
                pre.wf(),
                ia < pre.nodes@.len(),
                ib < pre.nodes@.len(),
                pre.nodes@[ia as int] == node_a,
                pre.nodes@[ib as int] == node_b,
                j <= pre.adj@[ib as int]@.len(),
                strict_sorted(merged@),
                merged@.to_set() =~= m[node_a].remove(node_a).remove(node_b).union(
                    pre.adj@[ib as int]@.take(j as int).to_set().remove(node_a).remove(node_b),
                ),
            decreases pre.adj@[ib as int]@.len() - j,
        {
            let x = self.adj[ib][j];
            let ghost msets = merged@.to_set();
            let ghost vb = pre.adj@[ib as int]@;
            if x != node_a && x != node_b {
                insert_sorted(&mut merged, x);
            }
            proof {
                assert(vb.take(j as int + 1) =~= vb.take(j as int).push(x));
                lemma_seq_insert_to_set(vb.take(j as int), j as int, x);
                assert(vb.take(j as int).insert(j as int, x) =~= vb.take(j as int).push(x));
                assert(vb.take(j as int + 1).to_set() =~= vb.take(j as int).to_set().insert(x));
                if x != node_a && x != node_b {
                    assert(merged@.to_set() =~= msets.insert(x));
                    assert(merged@.to_set() =~= m[node_a].remove(node_a).remove(node_b).union(
                        vb.take(j as int + 1).to_set().remove(node_a).remove(node_b),
                    ));
                } else {
                    assert(vb.take(j as int + 1).to_set().remove(node_a).remove(node_b) =~= vb.take(
                        j as int,
                    ).to_set().remove(node_a).remove(node_b));
                }
            }
            j += 1;
        }
        proof {
            let vb = pre.adj@[ib as int]@;
            assert(vb.take(vb.len() as int) =~= vb);
            assert(vb.to_set() == m[node_b]);
            assert(merged@.to_set() =~= m[node_a].union(m[node_b]).remove(node_a).remove(
                node_b,
            ));
        }
        self.adj.set(ia, merged);
        self.nodes.remove(ib);
        self.adj.remove(ib);
        let ghost mid_nodes = self.nodes@;
        let ghost mid_adj = self.adj@;
        proof {
            lemma_sorted_remove(pre.nodes@, ib as int);
            assert(mid_nodes == pre.nodes@.remove(ib as int));
            assert(mid_adj == pre.adj@.update(ia as int, merged).remove(ib as int));
        }
        // Rewrite every remaining mention of node_b to node_a.
        let mut k: usize = 0;
        while k < self.adj.len()
            invariant
                self.nodes@ == mid_nodes,
                self.adj@.len() == mid_adj.len(),
                k <= mid_adj.len(),
                forall|p: int| 0 <= p < mid_adj.len() ==> strict_sorted(#[trigger] mid_adj[p]@),
                forall|p: int|
                    0 <= p < k ==> strict_sorted(#[trigger] self.adj@[p]@)
                        && self.adj@[p]@.to_set() == spec_rewrite(
                        mid_adj[p]@.to_set(),
                        node_a,
                        node_b,
                    ),
                forall|p: int| k <= p < mid_adj.len() ==> #[trigger] self.adj@[p] == mid_adj[p],
            decreases mid_adj.len() - k,
        {
            let has_b = vec_mem(&self.adj[k], node_b);
            proof {
                assert(self.adj@[k as int] == mid_adj[k as int]);
            }
            if has_b {
                let mut lst: Vec<u32> = Vec::new();
                self.adj.set_and_swap(k, &mut lst);
                let mut lst2 = copy_excl2(&lst, node_b, node_b);
                insert_sorted(&mut lst2, node_a);
                self.adj.set(k, lst2);
                proof {
                    let s0 = mid_adj[k as int]@.to_set();
                    assert(lst2@.to_set() =~= s0.remove(node_b).insert(node_a)) by {
                        assert(lst@.to_set().remove(node_b).remove(node_b) =~= s0.remove(
                            node_b,
                        ));
                    }
                    assert(s0.contains(node_b));
                    assert(lst2@.to_set() == spec_rewrite(s0, node_a, node_b));
                }
            } else {
                proof {
                    assert(!mid_adj[k as int]@.to_set().contains(node_b));
                }
            }
            k += 1;
        }
        proof {
            let m2 = spec_contract(m, node_a, node_b);
            lemma_contract_wf(m, node_a, node_b);
            // Index correspondence between the new and the old node list.
            assert forall|p: int| 0 <= p < mid_nodes.len() implies {
                &&& mid_nodes[p] == pre.nodes@[(if p < ib as int {
                    p
                } else {
                    p + 1
                })]
                &&& mid_adj[p] == pre.adj@.update(ia as int, merged)[(if p < ib as int {
                    p
                } else {
                    p + 1
                })]
            } by {}
            assert(self.rep());
            assert(self@ =~= m2) by {
                assert forall|w: u32| #![all_triggers] true implies {
                    &&& (self@.dom().contains(w) <==> m2.dom().contains(w))
                    &&& (self@.dom().contains(w) ==> self@[w] == m2[w])
                } by {
                    self.lemma_view_dom();
                    pre.lemma_view_dom();
                    if self.nodes@.contains(w) {
                        let p = choose|p: int|
                            0 <= p < self.nodes@.len() && self.nodes@[p] == w;
                        let q = if p < ib as int {
                            p
                        } else {
                            p + 1
                        };
                        assert(pre.nodes@[q] == w);
                        self.lemma_view_at(p);
                        pre.lemma_view_at(q);
                        assert(w != node_b) by {
                            if q == ib as int {
                            } else {
                                pre.lemma_idx(q);
                                pre.lemma_idx(ib as int);
                            }
                        }
                        assert(m2.dom().contains(w));
                        assert(self@[w] == self.adj@[p]@.to_set());
                        assert(self.adj@[p]@.to_set() == spec_rewrite(
                            mid_adj[p]@.to_set(),
                            node_a,
                            node_b,
                        ));
                        if q == ia as int {
                            assert(w == node_a);
                            assert(mid_adj[p] == merged);
                            assert(!merged@.to_set().contains(node_b));
                            assert(self@[w] == merged@.to_set());
                            assert(m2[node_a] == m[node_a].union(m[node_b]).remove(
                                node_a,
                            ).remove(node_b));
                        } else {
                            pre.lemma_idx(q);
                            pre.lemma_idx(ia as int);
                            assert(w != node_a);
                            assert(mid_adj[p] == pre.adj@[q]);
                            assert(pre.adj@[q]@.to_set() == m[w]);
                            assert(self@[w] == spec_rewrite(m[w], node_a, node_b));
                            assert(m2[w] == (if m[w].contains(node_b) {
                                m[w].remove(node_b).insert(node_a)
                            } else {
                                m[w]
                            }));
                        }
                    } else {
                        // w is not a node afterwards: it was node_b or no node at all.
                        if m2.dom().contains(w) {
                            assert(pre.nodes@.contains(w) && w != node_b);
                            let q = choose|q: int|
                                0 <= q < pre.nodes@.len() && pre.nodes@[q] == w;
                            pre.lemma_idx(q);
                            pre.lemma_idx(ib as int);
                            assert(q != ib as int);
                            let p = if q < ib as int {
                                q
                            } else {
                                q - 1
                            };
                            assert(self.nodes@[p] == w);
                            assert(self.nodes@.contains(w));
                        }
                    }
                }
            }
        }
        Ok(())
    }
}

/// `spec_add_edge` preserves well-formedness of the model when both
/// endpoints are nodes.
proof fn lemma_add_edge_wf(m: Map<u32, Set<u32>>, a: u32, b: u32)
    requires
        wf_map(m),
        m.dom().contains(a),
        m.dom().contains(b),
    ensures
        wf_map(spec_add_edge(m, a, b)),
{
    let m2 = spec_add_edge(m, a, b);
    if a != b {
        assert(m2.dom() =~= m.dom());
        assert forall|x: u32, y: u32|
            m2.dom().contains(x) && #[trigger] m2[x].contains(y) implies m2.dom().contains(y)
            && m2[y].contains(x) by {
            if x == a && y == b {
            } else if x == b && y == a {
            } else if x == a {
                assert(m[a].contains(y));
            } else if x == b {
                assert(m[b].contains(y));
            } else {
                assert(m[x].contains(y));
            }
        }
    }
}

/// Graph symmetry: in every well-formed graph — the state that `new`,
/// `from_edges` and `from_gr` establish and that `add_node`, `add_edge`
/// and `contract_nodes` preserve — `b` neighbours `a` exactly when `a`
/// neighbours `b`, and every neighbour is a node.
pub proof fn lemma_graph_symmetric(g: Graph)
    requires
        g.wf(),
    ensures
        forall|a: u32, b: u32|
            g@.dom().contains(a) && #[trigger] g@[a].contains(b) ==> g@.dom().contains(b)
                && g@[b].contains(a),
{
}

/// Simple contraction identity: contracting `(a, b)` on a well-formed
/// graph whose nodes are exactly `{a, b}` — which can carry at most the
/// edge `{a, b}` — leaves the single node `a` with no neighbours.
pub proof fn lemma_contract_pair_identity(m: Map<u32, Set<u32>>, a: u32, b: u32)
    requires
        wf_map(m),
        a != b,
        m.dom() == set![a, b],
    ensures
        spec_contract(m, a, b).dom() == set![a],
        spec_contract(m, a, b)[a] == Set::<u32>::empty(),
{
    let m2 = spec_contract(m, a, b);
    assert(m.dom().contains(a) && m.dom().contains(b)) by {
        assert(set![a, b].contains(a) && set![a, b].contains(b));
    }
    assert(m2.dom() =~= set![a]);
    assert(m2[a] =~= Set::<u32>::empty()) by {
        assert forall|y: u32| !(#[trigger] m2[a].contains(y)) by {
            if m2[a].contains(y) {
                assert(m[a].contains(y) || m[b].contains(y));
                assert(m.dom().contains(y));
                assert(y == a || y == b);
            }
        }
    }
}

/// In a well-formed graph with at most one node, that node has no
/// neighbours.
pub proof fn lemma_single_node_no_neighbours(m: Map<u32, Set<u32>>)
    requires
        wf_map(m),
        m.dom().len() <= 1,
    ensures
        forall|v: u32| m.dom().contains(v) ==> m[v] == Set::<u32>::empty(),
{
    assert forall|v: u32| m.dom().contains(v) implies m[v] == Set::<u32>::empty() by {
        assert(m[v] =~= Set::empty()) by {
            assert forall|y: u32| !(#[trigger] m[v].contains(y)) by {
                if m[v].contains(y) {
                    assert(m.dom().contains(y) && y != v);
                    assert(m.dom().remove(v).contains(y));
                    assert(m.dom().remove(v).len() == 0);
                    m.dom().remove(v).lemma_len0_is_empty();
                }
            }
        }
    }
}

/// Two strictly sorted sequences over the same set are equal.
pub proof fn lemma_strict_sorted_unique(q1: Seq<u32>, q2: Seq<u32>)
    requires
        strict_sorted(q1),
        strict_sorted(q2),
        q1.to_set() == q2.to_set(),
    ensures
        q1 == q2,
    decreases q1.len(),
{
    lemma_sorted_set_len(q1);
    lemma_sorted_set_len(q2);
    if q1.len() == 0 {
        assert(q1 =~= q2);
    } else {
        assert(q1.to_set().contains(q1[0]));
        assert(q2.to_set().contains(q2[0]));
        let i = choose|i: int| 0 <= i < q2.len() && q2[i] == q1[0];
        let j = choose|j: int| 0 <= j < q1.len() && q1[j] == q2[0];
        assert(q2[0] <= q2[i] && q1[0] <= q1[j]);
        assert(q1[0] == q2[0]);
        let t1 = q1.skip(1);
        let t2 = q2.skip(1);
        assert(strict_sorted(t1) && strict_sorted(t2));
        assert(t1.to_set() =~= q1.to_set().remove(q1[0])) by {
            assert forall|y: u32| t1.to_set().contains(y) implies q1.to_set().remove(
                q1[0],
            ).contains(y) by {
                let k = choose|k: int| 0 <= k < t1.len() && t1[k] == y;
                assert(q1[k + 1] == y);
                assert(q1[0] < q1[k + 1]);
            }
            assert forall|y: u32| q1.to_set().remove(q1[0]).contains(y) implies t1.to_set()
                .contains(y) by {
                let k = choose|k: int| 0 <= k < q1.len() && q1[k] == y;
                assert(k != 0);
                assert(t1[k - 1] == y);
            }
        }
        assert(t2.to_set() =~= q2.to_set().remove(q2[0])) by {
            assert forall|y: u32| t2.to_set().contains(y) implies q2.to_set().remove(
                q2[0],
            ).contains(y) by {
                let k = choose|k: int| 0 <= k < t2.len() && t2[k] == y;
                assert(q2[k + 1] == y);
                assert(q2[0] < q2[k + 1]);
            }
            assert forall|y: u32| q2.to_set().remove(q2[0]).contains(y) implies t2.to_set()
                .contains(y) by {
                let k = choose|k: int| 0 <= k < q2.len() && q2[k] == y;
                assert(k != 0);
                assert(t2[k - 1] == y);
            }
        }
        lemma_strict_sorted_unique(t1, t2);
        assert(q1 =~= q2) by {
            assert(forall|k: int| 1 <= k < q1.len() ==> q1[k] == t1[k - 1] && q2[k] == t2[k - 1]);
        }
    }
}

/// The one strictly sorted sequence that lists a finite set.
pub open spec fn spec_sorted_seq(s: Set<u32>) -> Seq<u32> {
    choose|q: Seq<u32>| strict_sorted(q) && q.to_set() == s
}

/// A strictly sorted sequence is the sorted listing of its set.
pub proof fn lemma_sorted_seq_of(q: Seq<u32>)
    requires
        strict_sorted(q),
    ensures
        spec_sorted_seq(q.to_set()) == q,
{
    let w = spec_sorted_seq(q.to_set());
    assert(strict_sorted(w) && w.to_set() == q.to_set()) by {
        assert(strict_sorted(q) && q.to_set() == q.to_set());
    }
    lemma_strict_sorted_unique(w, q);
}

/// The graph that an edge list builds: both endpoints of every edge
/// become nodes and every edge is inserted, in order.
pub open spec fn spec_edges_graph(edges: Seq<(u32, u32)>) -> Map<u32, Set<u32>>
    decreases edges.len(),
{
    if edges.len() == 0 {
        Map::empty()
    } else {
        let m = spec_edges_graph(edges.drop_last());
        let e = edges.last();
        spec_add_edge(spec_add_node(spec_add_node(m, e.0), e.1), e.0, e.1)
    }
}

impl Graph {
    /// Builds the graph of an edge list: endpoints become nodes, edges
    /// are inserted in order.
    pub fn from_edges(edges: Vec<(u32, u32)>) -> (g: Graph)
        ensures
            g.wf(),
            g@ == spec_edges_graph(edges@),
    {
        let mut g = Graph::new();
        let mut i: usize = 0;
        while i < edges.len()
            invariant
                i <= edges@.len(),
                g.wf(),
                g@ == spec_edges_graph(edges@.take(i as int)),
            decreases edges@.len() - i,
        {
            let (node_a, node_b) = edges[i];
            g.add_node(node_a);
            g.add_node(node_b);
            let r = g.add_edge(node_a, node_b);
            proof {
                if r is Err {
                    assert(false);
                }
                assert(edges@.take(i as int + 1).drop_last() =~= edges@.take(i as int));
                assert(edges@.take(i as int + 1).last() == edges@[i as int]);
            }
            i += 1;
        }
        proof {
            assert(edges@.take(edges@.len() as int) =~= edges@);
        }
        g
    }

    /// Builds the graph described by a `.gr` text: one edge per line as
    /// two whitespace-separated integers; any line on which that fails
    /// contributes nothing.
    pub fn from_gr(gr: &str) -> (g: Graph)
        ensures
            g.wf(),
            g@ == spec_edges_graph(crate::gr_format::spec_gr_edges(gr@)),
    {
        let n = gr.unicode_len();
        let mut cs: Vec<char> = Vec::new();
        let mut i: usize = 0;
        while i < n
            invariant
                i <= n,
                n == gr@.len(),
                cs@ =~= gr@.take(i as int),
            decreases n - i,
        {
            cs.push(gr.get_char(i));
            proof {
                assert(cs@ =~= gr@.take(i as int + 1));
            }
            i += 1;
        }
        proof {
            assert(gr@.take(n as int) =~= gr@);
        }
        let edges = crate::gr_format::parse_gr_edges(&cs);
        Graph::from_edges(edges)
    }
}

/// `spec_add_node` preserves well-formedness of the model.
proof fn lemma_add_node_wf(m: Map<u32, Set<u32>>, v: u32)
    requires
        wf_map(m),
    ensures
        wf_map(spec_add_node(m, v)),
{
    let m2 = spec_add_node(m, v);
    if !m.dom().contains(v) {
        assert forall|x: u32, y: u32|
            m2.dom().contains(x) && #[trigger] m2[x].contains(y) implies m2.dom().contains(y)
            && m2[y].contains(x) by {
            if x != v {
                assert(m[x].contains(y));
                assert(m.dom().contains(y) && m[y].contains(x));
                assert(y != v);
            }
        }
    }
}

} // verus!
