//! The greedy contraction heuristic: at every step, contract the pair of
//! nodes whose contraction yields the smallest maximum red degree.

use vstd::prelude::*;

use crate::algo::Algo;
use crate::graph::Graph;
use vstd::string::StringExecFns;

verus! {

broadcast use Seq::<_>::lemma_push_to_set_commute;

/// The nodes whose adjacency disagrees between `a` and `b`: the symmetric
/// difference of the two neighbourhoods, the endpoints themselves
/// excluded.
pub open spec fn spec_diff(g: Map<u32, Set<u32>>, a: u32, b: u32) -> Set<u32> {
    g[a].difference(g[b]).union(g[b].difference(g[a])).remove(a).remove(b)
}

/// `m` with every node of `s` present; a node that was absent starts
/// with no neighbours.
pub open spec fn spec_with_nodes(m: Map<u32, Set<u32>>, s: Set<u32>) -> Map<u32, Set<u32>> {
    Map::new(
        |v: u32| m.dom().contains(v) || s.contains(v),
        |v: u32|
            if m.dom().contains(v) {
                m[v]
            } else {
                Set::empty()
            },
    )
}

/// `m` with an edge from `c` to every node of `s`.
pub open spec fn spec_add_star(m: Map<u32, Set<u32>>, c: u32, s: Set<u32>) -> Map<u32, Set<u32>> {
    Map::new(
        |v: u32| m.dom().contains(v),
        |v: u32|
            if v == c {
                m[v].union(s)
            } else if s.contains(v) {
                m[v].insert(c)
            } else {
                m[v]
            },
    )
}

/// The red graph that scoring the candidate `(a, b)` predicts: the red
/// edges so far, plus a red edge from each endpoint to each of its
/// disagreeing neighbours, with the contraction of `b` into `a` applied.
pub open spec fn spec_score_map(
    g: Map<u32, Set<u32>>,
    r: Map<u32, Set<u32>>,
    a: u32,
    b: u32,
) -> Map<u32, Set<u32>> {
    let d = spec_diff(g, a, b);
    let r1 = spec_with_nodes(r, set![a, b].union(d));
    let r2 = spec_add_star(r1, a, d.intersect(g[a]));
    let r3 = spec_add_star(r2, b, d.intersect(g[b]));
    crate::graph::spec_contract(r3, a, b)
}

/// The width that the candidate `(a, b)` would produce: the maximum red
/// degree after its contraction.
pub open spec fn spec_score(g: Map<u32, Set<u32>>, r: Map<u32, Set<u32>>, a: u32, b: u32) -> nat {
    crate::graph::spec_max_degree(spec_score_map(g, r, a, b))
}

/// `spec_with_nodes` keeps the model well-formed and extends the domain
/// by exactly `s`.
proof fn lemma_with_nodes_wf(m: Map<u32, Set<u32>>, s: Set<u32>)
    requires
        crate::graph::wf_map(m),
        s.finite(),
    ensures
        crate::graph::wf_map(spec_with_nodes(m, s)),
        spec_with_nodes(m, s).dom() =~= m.dom().union(s),
{
    let m2 = spec_with_nodes(m, s);
    assert(m2.dom() =~= m.dom().union(s));
    assert forall|x: u32, y: u32|
        m2.dom().contains(x) && #[trigger] m2[x].contains(y) implies m2.dom().contains(y)
        && m2[y].contains(x) by {
        assert(m.dom().contains(x) && m[x].contains(y));
    }
}

/// Nothing is added by `spec_with_nodes` with no nodes.
proof fn lemma_with_nodes_empty(m: Map<u32, Set<u32>>)
    ensures
        spec_with_nodes(m, Set::empty()) =~= m,
{
}

/// Adding one more node commutes with `spec_with_nodes`.
proof fn lemma_with_nodes_step(m: Map<u32, Set<u32>>, s: Set<u32>, v: u32)
    ensures
        crate::graph::spec_add_node(spec_with_nodes(m, s), v) =~= spec_with_nodes(
            m,
            s.insert(v),
        ),
{
}

/// `spec_add_star` keeps the model well-formed when the star's centre
/// and leaves are distinct nodes.
proof fn lemma_add_star_wf(m: Map<u32, Set<u32>>, c: u32, s: Set<u32>)
    requires
        crate::graph::wf_map(m),
        m.dom().contains(c),
        s.subset_of(m.dom()),
        !s.contains(c),
        s.finite(),
    ensures
        crate::graph::wf_map(spec_add_star(m, c, s)),
        spec_add_star(m, c, s).dom() =~= m.dom(),
{
    let m2 = spec_add_star(m, c, s);
    assert(m2.dom() =~= m.dom());
    assert forall|x: u32, y: u32|
        m2.dom().contains(x) && #[trigger] m2[x].contains(y) implies m2.dom().contains(y)
        && m2[y].contains(x) by {
        if x == c {
            if m[c].contains(y) {
                assert(m[y].contains(c));
            } else {
                assert(s.contains(y));
            }
            assert(m2[y].contains(c));
        } else if s.contains(x) && y == c {
            assert(m2[c] == m[c].union(s));
        } else {
            assert(m[x].contains(y));
            assert(m[y].contains(x));
        }
    }
    assert forall|v: u32| m2.dom().contains(v) implies !(#[trigger] m2[v]).contains(v) by {
        if v == c {
            assert(!m[c].contains(c) && !s.contains(c));
        }
    }
}

/// A star over no leaves changes nothing.
proof fn lemma_add_star_empty(m: Map<u32, Set<u32>>, c: u32)
    ensures
        spec_add_star(m, c, Set::empty()) =~~= m,
{
}

/// Adding one more red edge from the centre extends the star by one leaf.
proof fn lemma_add_star_step(m: Map<u32, Set<u32>>, c: u32, s: Set<u32>, x: u32)
    requires
        m.dom().contains(c),
        m.dom().contains(x),
        x != c,
    ensures
        crate::graph::spec_add_edge(spec_add_star(m, c, s), c, x) =~= spec_add_star(
            m,
            c,
            s.insert(x),
        ),
{
    let l = crate::graph::spec_add_edge(spec_add_star(m, c, s), c, x);
    let r = spec_add_star(m, c, s.insert(x));
    assert forall|v: u32| #![all_triggers] true implies {
        &&& (l.dom().contains(v) <==> r.dom().contains(v))
        &&& (l.dom().contains(v) ==> l[v] == r[v])
    } by {
        if l.dom().contains(v) {
            if v == c {
                assert(l[c] =~= r[c]);
            } else if v == x {
                assert(l[x] =~= r[x]);
            } else {
                assert(l[v] == r[v]);
            }
        }
    }
}

/// The disagreeing neighbours of two nodes are nodes.
proof fn lemma_diff_in_dom(g: Map<u32, Set<u32>>, a: u32, b: u32)
    requires
        crate::graph::wf_map(g),
        g.dom().contains(a),
        g.dom().contains(b),
    ensures
        spec_diff(g, a, b).subset_of(g.dom()),
        spec_diff(g, a, b).finite(),
{
    let d = spec_diff(g, a, b);
    assert forall|x: u32| d.contains(x) implies g.dom().contains(x) by {
        assert(g[a].contains(x) || g[b].contains(x));
    }
    assert(d.subset_of(g[a].union(g[b])));
    vstd::set_lib::lemma_len_subset(d, g[a].union(g[b]));
}

/// The character of one decimal digit.
pub open spec fn digit_char(d: nat) -> char {
    if d == 0 {
        '0'
    } else if d == 1 {
        '1'
    } else if d == 2 {
        '2'
    } else if d == 3 {
        '3'
    } else if d == 4 {
        '4'
    } else if d == 5 {
        '5'
    } else if d == 6 {
        '6'
    } else if d == 7 {
        '7'
    } else if d == 8 {
        '8'
    } else {
        '9'
    }
}

/// The decimal digit characters of `n`, most significant first.
pub open spec fn spec_u32_digits(n: nat) -> Seq<char>
    decreases n,
{
    if n < 10 {
        seq![digit_char(n)]
    } else {
        spec_u32_digits(n / 10).push(digit_char(n % 10))
    }
}

/// The `.tww` text of a contraction sequence: one line per step,
/// `"<a> <b>"` with a single space, each line ended by a newline.
pub open spec fn spec_tww_str(steps: Seq<(u32, u32)>) -> Seq<char>
    decreases steps.len(),
{
    if steps.len() == 0 {
        Seq::empty()
    } else {
        spec_tww_str(steps.drop_last()) + spec_u32_digits(steps.last().0 as nat) + seq![' ']
            + spec_u32_digits(steps.last().1 as nat) + seq!['\n']
    }
}

/// Relies on `u32`'s `Display` through `to_string`: the decimal digits
/// of the number, most significant first, no sign and no padding.
#[verifier::external_body]
fn u32_to_string(n: u32) -> (r: String)
    ensures
        r@ == spec_u32_digits(n as nat),
{
    n.to_string()
}

/// A copy of a pair list in the same order.
fn clone_pairs(v: &Vec<(u32, u32)>) -> (r: Vec<(u32, u32)>)
    ensures
        r@ == v@,
{
    let mut r: Vec<(u32, u32)> = Vec::new();
    let mut i: usize = 0;
    while i < v.len()
        invariant
            i <= v@.len(),
            r@ == v@.take(i as int),
        decreases v@.len() - i,
    {
        r.push(v[i]);
        proof {
            assert(r@ =~= v@.take(i as int + 1));
        }
        i += 1;
    }
    proof {
        assert(v@.take(v@.len() as int) =~= v@);
    }
    r
}

/// The symmetric difference of two node lists, without `a` and `b`.
fn diff_excl(va: &Vec<u32>, vb: &Vec<u32>, a: u32, b: u32) -> (r: Vec<u32>)
    ensures
        r@.to_set() =~= va@.to_set().difference(vb@.to_set()).union(
            vb@.to_set().difference(va@.to_set()),
        ).remove(a).remove(b),
{
    let ghost sa = va@.to_set();
    let ghost sb = vb@.to_set();
    let mut r: Vec<u32> = Vec::new();
    let mut i: usize = 0;
    while i < va.len()
        invariant
            i <= va@.len(),
            r@.to_set() =~= va@.take(i as int).to_set().difference(sb).remove(a).remove(b),
            sb == vb@.to_set(),
        decreases va@.len() - i,
    {
        let x = va[i];
        proof {
            assert(va@.take(i as int + 1) =~= va@.take(i as int).push(x));
            assert(va@.take(i as int).push(x).to_set() =~= va@.take(i as int).to_set().insert(
                x,
            ));
        }
        if x != a && x != b && !crate::graph::vec_mem(vb, x) {
            let ghost rpre = r@;
            r.push(x);
            proof {
                assert(r@ == rpre.push(x));
            }
        }
        i += 1;
    }
    let ghost part_a = sa.difference(sb).remove(a).remove(b);
    proof {
        assert(va@.take(va@.len() as int) =~= va@);
        assert(r@.to_set() =~= part_a);
    }
    let mut j: usize = 0;
    while j < vb.len()
        invariant
            j <= vb@.len(),
            r@.to_set() =~= part_a.union(
                vb@.take(j as int).to_set().difference(sa).remove(a).remove(b),
            ),
            sa == va@.to_set(),
            sb == vb@.to_set(),
            part_a == sa.difference(sb).remove(a).remove(b),
        decreases vb@.len() - j,
    {
        let x = vb[j];
        proof {
            assert(vb@.take(j as int + 1) =~= vb@.take(j as int).push(x));
            assert(vb@.take(j as int).push(x).to_set() =~= vb@.take(j as int).to_set().insert(
                x,
            ));
        }
        if x != a && x != b && !crate::graph::vec_mem(va, x) {
            let ghost rpre = r@;
            r.push(x);
            proof {
                assert(r@ == rpre.push(x));
            }
        }
        j += 1;
    }
    proof {
        assert(vb@.take(vb@.len() as int) =~= vb@);
    }
    r
}

/// Scores one candidate pair: the red graph that contracting `(node_a,
/// node_b)` would leave, and its maximum red degree.
fn score_candidate(graph: &Graph, red: &Graph, node_a: u32, node_b: u32) -> (r: (Graph, usize))
    requires
        graph.wf(),
        red.wf(),
        red@.dom().subset_of(graph@.dom()),
        graph@.dom().contains(node_a),
        graph@.dom().contains(node_b),
        node_a != node_b,
    ensures
        r.0.wf(),
        r.0@ == spec_score_map(graph@, red@, node_a, node_b),
        r.1 as nat == spec_score(graph@, red@, node_a, node_b),
        r.0@.dom().subset_of(graph@.dom().remove(node_b)),
{
    let ghost g = graph@;
    let ghost r0 = red@;
    let ghost dset = spec_diff(g, node_a, node_b);
    proof {
        lemma_diff_in_dom(g, node_a, node_b);
    }
    let mut local = red.duplicate();
    local.add_node(node_a);
    local.add_node(node_b);
    proof {
        lemma_with_nodes_empty(r0);
        lemma_with_nodes_step(r0, Set::empty(), node_a);
        lemma_with_nodes_step(r0, Set::empty().insert(node_a), node_b);
        assert(local@ == spec_with_nodes(r0, Set::empty().insert(node_a).insert(node_b)));
    }
    let na = graph.neighbours_present(node_a);
    let nb = graph.neighbours_present(node_b);
    let diff = diff_excl(na, nb, node_a, node_b);
    proof {
        assert(diff@.to_set() =~= dset);
    }
    proof {
        assert(set![node_a, node_b].union(diff@.take(0).to_set()) =~= Set::empty().insert(
            node_a,
        ).insert(node_b));
    }
    // Make every disagreeing neighbour a node of the local red graph.
    let mut i: usize = 0;
    while i < diff.len()
        invariant
            i <= diff@.len(),
            diff@.to_set() == dset,
            local.wf(),
            local@ == spec_with_nodes(
                r0,
                set![node_a, node_b].union(diff@.take(i as int).to_set()),
            ),
        decreases diff@.len() - i,
    {
        let x = diff[i];
        let ghost s_before = set![node_a, node_b].union(diff@.take(i as int).to_set());
        local.add_node(x);
        proof {
            lemma_with_nodes_step(r0, s_before, x);
            assert(diff@.take(i as int + 1) =~= diff@.take(i as int).push(x));
            assert(diff@.take(i as int).push(x).to_set() =~= diff@.take(
                i as int,
            ).to_set().insert(x));
            assert(s_before.insert(x) =~= set![node_a, node_b].union(
                diff@.take(i as int + 1).to_set(),
            ));
        }
        i += 1;
    }
    let ghost r1 = spec_with_nodes(r0, set![node_a, node_b].union(dset));
    proof {
        assert(diff@.take(diff@.len() as int) =~= diff@);
        assert(local@ == r1);
        lemma_with_nodes_wf(r0, set![node_a, node_b].union(dset));
        assert(r1.dom() =~= r0.dom().union(set![node_a, node_b]).union(dset));
    }
    // Red edges from node_a to its disagreeing neighbours.
    proof {
        assert(na@.take(0).to_set().intersect(dset) =~= Set::empty());
        lemma_add_star_empty(r1, node_a);
    }
    let mut i2: usize = 0;
    while i2 < na.len()
        invariant
            i2 <= na@.len(),
            na@.to_set() == g[node_a],
            diff@.to_set() == dset,
            dset == spec_diff(g, node_a, node_b),
            r1 == spec_with_nodes(r0, set![node_a, node_b].union(dset)),
            r1.dom() == r0.dom().union(set![node_a, node_b]).union(dset),
            crate::graph::wf_map(r1),
            local.wf(),
            local@ == spec_add_star(r1, node_a, na@.take(i2 as int).to_set().intersect(dset)),
            !dset.contains(node_a) && !dset.contains(node_b),
            node_a != node_b,
        decreases na@.len() - i2,
    {
        let x = na[i2];
        let ghost s_before = na@.take(i2 as int).to_set().intersect(dset);
        proof {
            assert(na@.take(i2 as int + 1) =~= na@.take(i2 as int).push(x));
            assert(na@.take(i2 as int).push(x).to_set() =~= na@.take(
                i2 as int,
            ).to_set().insert(x));
        }
        if crate::graph::vec_mem(&diff, x) {
            local.add_node(x);
            proof {
                assert(local@.dom().contains(x) && local@.dom().contains(node_a));
                assert(local@ == spec_add_star(r1, node_a, s_before));
            }
            local.insert_edge(node_a, x);
            proof {
                lemma_add_star_step(r1, node_a, s_before, x);
                assert(s_before.insert(x) =~= na@.take(i2 as int + 1).to_set().intersect(
                    dset,
                ));
            }
        } else {
            proof {
                assert(na@.take(i2 as int + 1).to_set().intersect(dset) =~= s_before);
            }
        }
        i2 += 1;
    }
    let ghost r2 = spec_add_star(r1, node_a, dset.intersect(g[node_a]));
    proof {
        assert(na@.take(na@.len() as int) =~= na@);
        assert(g[node_a].intersect(dset) =~= dset.intersect(g[node_a]));
        assert(local@ == r2);
        lemma_add_star_wf(r1, node_a, dset.intersect(g[node_a]));
        assert(dset.intersect(g[node_a]).subset_of(r1.dom()));
        assert(r2.dom() == r1.dom());
    }
    // Red edges from node_b to its disagreeing neighbours.
    proof {
        assert(nb@.take(0).to_set().intersect(dset) =~= Set::empty());
        lemma_add_star_empty(r2, node_b);
    }
    let mut i3: usize = 0;
    while i3 < nb.len()
        invariant
            i3 <= nb@.len(),
            nb@.to_set() == g[node_b],
            diff@.to_set() == dset,
            dset == spec_diff(g, node_a, node_b),
            r2.dom() == r0.dom().union(set![node_a, node_b]).union(dset),
            crate::graph::wf_map(r2),
            local.wf(),
            local@ == spec_add_star(r2, node_b, nb@.take(i3 as int).to_set().intersect(dset)),
            !dset.contains(node_a) && !dset.contains(node_b),
            node_a != node_b,
        decreases nb@.len() - i3,
    {
        let x = nb[i3];
        let ghost s_before = nb@.take(i3 as int).to_set().intersect(dset);
        proof {
            assert(nb@.take(i3 as int + 1) =~= nb@.take(i3 as int).push(x));
            assert(nb@.take(i3 as int).push(x).to_set() =~= nb@.take(
                i3 as int,
            ).to_set().insert(x));
        }
        if crate::graph::vec_mem(&diff, x) {
            local.add_node(x);
            proof {
                assert(local@.dom().contains(x) && local@.dom().contains(node_b));
                assert(local@ == spec_add_star(r2, node_b, s_before));
            }
            local.insert_edge(node_b, x);
            proof {
                lemma_add_star_step(r2, node_b, s_before, x);
                assert(s_before.insert(x) =~= nb@.take(i3 as int + 1).to_set().intersect(
                    dset,
                ));
            }
        } else {
            proof {
                assert(nb@.take(i3 as int + 1).to_set().intersect(dset) =~= s_before);
            }
        }
        i3 += 1;
    }
    let ghost r3 = spec_add_star(r2, node_b, dset.intersect(g[node_b]));
    proof {
        assert(nb@.take(nb@.len() as int) =~= nb@);
        assert(g[node_b].intersect(dset) =~= dset.intersect(g[node_b]));
        assert(local@ == r3);
        lemma_add_star_wf(r2, node_b, dset.intersect(g[node_b]));
        assert(r3.dom() == r2.dom());
    }
    // Contract the candidate on the local red graph and read the width.
    let cr = local.contract_nodes(node_a, node_b);
    proof {
        if cr is Err {
            assert(false);
        }
        crate::graph::lemma_contract_wf(r3, node_a, node_b);
        assert(local@ == spec_score_map(g, r0, node_a, node_b));
        assert(local@.dom().subset_of(g.dom().remove(node_b))) by {
            assert forall|v: u32| local@.dom().contains(v) implies g.dom().remove(
                node_b,
            ).contains(v) by {
                assert(r3.dom().contains(v) && v != node_b);
                assert(r0.dom().contains(v) || set![node_a, node_b].contains(v)
                    || dset.contains(v));
            }
        }
    }
    let w = local.get_max_degree();
    (local, w)
}

/// Inserts `x` into a strictly sorted sequence at its place.
spec fn seq_sorted_insert(q: Seq<u32>, x: u32) -> Seq<u32>
    decreases q.len(),
{
    if q.len() == 0 {
        seq![x]
    } else if x < q[0] {
        seq![x] + q
    } else if x == q[0] {
        q
    } else {
        seq![q[0]] + seq_sorted_insert(q.skip(1), x)
    }
}

proof fn lemma_seq_sorted_insert(q: Seq<u32>, x: u32)
    requires
        crate::graph::strict_sorted(q),
    ensures
        crate::graph::strict_sorted(seq_sorted_insert(q, x)),
        seq_sorted_insert(q, x).to_set() =~= q.to_set().insert(x),
    decreases q.len(),
{
    let r = seq_sorted_insert(q, x);
    if q.len() == 0 {
        assert(r =~= seq![x]);
        assert forall|y: u32| r.to_set().contains(y) implies q.to_set().insert(x).contains(
            y,
        ) by {
            assert(r[0] == x);
        }
        assert(r.to_set().contains(x)) by {
            assert(r[0] == x);
        }
    } else if x < q[0] {
        assert(crate::graph::strict_sorted(r)) by {
            assert forall|p: int, k: int| 0 <= p < k < r.len() implies r[p] < r[k] by {
                if p == 0 {
                    assert(r[k] == q[k - 1]);
                    if k > 1 {
                        assert(q[0] < q[k - 1]);
                    }
                } else {
                    assert(r[p] == q[p - 1] && r[k] == q[k - 1]);
                }
            }
        }
        assert(r.to_set() =~= q.to_set().insert(x)) by {
            assert forall|y: u32| r.to_set().contains(y) implies q.to_set().insert(x).contains(
                y,
            ) by {
                let k = choose|k: int| 0 <= k < r.len() && r[k] == y;
                if k > 0 {
                    assert(q[k - 1] == y);
                }
            }
            assert forall|y: u32| q.to_set().insert(x).contains(y) implies r.to_set().contains(
                y,
            ) by {
                if y == x {
                    assert(r[0] == x);
                } else {
                    let k = choose|k: int| 0 <= k < q.len() && q[k] == y;
                    assert(r[k + 1] == y);
                }
            }
        }
    } else if x == q[0] {
        assert(r.to_set() =~= q.to_set().insert(x)) by {
            assert(q[0] == x);
            assert(q.to_set().contains(x));
        }
    } else {
        let t = q.skip(1);
        assert(crate::graph::strict_sorted(t));
        lemma_seq_sorted_insert(t, x);
        let rt = seq_sorted_insert(t, x);
        assert(crate::graph::strict_sorted(r)) by {
            assert forall|p: int, k: int| 0 <= p < k < r.len() implies r[p] < r[k] by {
                if p == 0 {
                    assert(r[k] == rt[k - 1]);
                    assert(rt.to_set().contains(rt[k - 1]));
                    assert(t.to_set().insert(x).contains(rt[k - 1]));
                    if rt[k - 1] == x {
                        assert(q[0] < x);
                    } else {
                        let z = choose|z: int| 0 <= z < t.len() && t[z] == rt[k - 1];
                        assert(q[z + 1] == rt[k - 1]);
                        assert(q[0] < q[z + 1]);
                    }
                } else {
                    assert(r[p] == rt[p - 1] && r[k] == rt[k - 1]);
                }
            }
        }
        assert(r.to_set() =~= q.to_set().insert(x)) by {
            assert forall|y: u32| r.to_set().contains(y) implies q.to_set().insert(x).contains(
                y,
            ) by {
                let k = choose|k: int| 0 <= k < r.len() && r[k] == y;
                if k == 0 {
                    assert(q[0] == y);
                } else {
                    assert(rt[k - 1] == y);
                    assert(rt.to_set().contains(y));
                    assert(t.to_set().insert(x).contains(y));
                    if y != x {
                        let z = choose|z: int| 0 <= z < t.len() && t[z] == y;
                        assert(q[z + 1] == y);
                    }
                }
            }
            assert forall|y: u32| q.to_set().insert(x).contains(y) implies r.to_set().contains(
                y,
            ) by {
                if y == q[0] {
                    assert(r[0] == y);
                } else {
                    assert(rt.to_set().contains(y)) by {
                        if y != x {
                            let k = choose|k: int| 0 <= k < q.len() && q[k] == y;
                            assert(k != 0);
                            assert(t[k - 1] == y);
                            assert(t.to_set().contains(y));
                        }
                    }
                    let z = choose|z: int| 0 <= z < rt.len() && rt[z] == y;
                    assert(r[z + 1] == y);
                }
            }
        }
    }
}

/// Every finite set of nodes has its strictly sorted listing, and
/// `spec_sorted_seq` is it.
pub proof fn lemma_sorted_seq_props(s: Set<u32>)
    requires
        s.finite(),
    ensures
        crate::graph::strict_sorted(crate::graph::spec_sorted_seq(s)),
        crate::graph::spec_sorted_seq(s).to_set() == s,
        crate::graph::spec_sorted_seq(s).len() == s.len(),
    decreases s.len(),
{
    if s.len() == 0 {
        let w = Seq::<u32>::empty();
        assert(crate::graph::strict_sorted(w));
        assert(w.to_set() =~= s) by {
            if !(exists|x: u32| s.contains(x)) {
                assert(s =~= Set::empty());
            } else {
                let x = choose|x: u32| s.contains(x);
                assert(s.remove(x).len() + 1 == s.len());
            }
        }
        assert(exists|q: Seq<u32>|
            crate::graph::strict_sorted(q) && #[trigger] q.to_set() == s) by {
            assert(crate::graph::strict_sorted(w) && w.to_set() == s);
        }
    } else {
        let x = s.choose();
        crate::graph::lemma_nonempty_choose(s);
        lemma_sorted_seq_props(s.remove(x));
        let q2 = crate::graph::spec_sorted_seq(s.remove(x));
        lemma_seq_sorted_insert(q2, x);
        let w = seq_sorted_insert(q2, x);
        assert(w.to_set() =~= s) by {
            assert(w.to_set() =~= q2.to_set().insert(x));
            assert(s.remove(x).insert(x) =~= s);
        }
        assert(exists|q: Seq<u32>|
            crate::graph::strict_sorted(q) && #[trigger] q.to_set() == s) by {
            assert(crate::graph::strict_sorted(w) && w.to_set() == s);
        }
    }
    let q = crate::graph::spec_sorted_seq(s);
    assert(crate::graph::strict_sorted(q) && q.to_set() == s);
    crate::graph::lemma_sorted_set_len(q);
}

/// A candidate pair lists two nodes in increasing order.
pub open spec fn pair_ok(g: Map<u32, Set<u32>>, p: (u32, u32)) -> bool {
    g.dom().contains(p.0) && g.dom().contains(p.1) && p.0 < p.1
}

/// Over a strictly sorted node listing, every enumerated pair is a valid
/// candidate.
proof fn lemma_pairs_ok(g: Map<u32, Set<u32>>, q: Seq<u32>)
    requires
        crate::graph::strict_sorted(q),
        q.to_set().subset_of(g.dom()),
    ensures
        forall|k: int|
            0 <= k < crate::algo::spec_pairs(q).len() ==> pair_ok(
                g,
                #[trigger] crate::algo::spec_pairs(q)[k],
            ),
    decreases q.len(),
{
    let ps = crate::algo::spec_pairs(q);
    if q.len() >= 2 {
        let t = q.skip(1);
        let head = t.map_values(|x: u32| (q[0], x));
        assert(crate::graph::strict_sorted(t));
        assert(t.to_set().subset_of(g.dom())) by {
            assert forall|y: u32| t.to_set().contains(y) implies g.dom().contains(y) by {
                let k = choose|k: int| 0 <= k < t.len() && t[k] == y;
                assert(q[k + 1] == y);
                assert(q.to_set().contains(y));
            }
        }
        lemma_pairs_ok(g, t);
        assert forall|k: int| 0 <= k < ps.len() implies pair_ok(g, #[trigger] ps[k]) by {
            if k < head.len() {
                assert(ps[k] == (q[0], t[k]));
                assert(q.to_set().contains(q[0]));
                assert(q[k + 1] == t[k]);
                assert(q.to_set().contains(t[k]));
                assert(q[0] < q[k + 1]);
            } else {
                assert(ps[k] == crate::algo::spec_pairs(t)[k - head.len()]);
            }
        }
    }
}

/// Enumerating at least two nodes yields at least one pair.
proof fn lemma_pairs_nonempty(q: Seq<u32>)
    requires
        q.len() >= 2,
    ensures
        crate::algo::spec_pairs(q).len() >= 1,
{
    assert(q.skip(1).map_values(|x: u32| (q[0], x)).len() == q.len() - 1);
}

/// A candidate with the red graph and width that scoring it yields.
pub open spec fn cand_ok(
    g: Map<u32, Set<u32>>,
    r: Map<u32, Set<u32>>,
    c: ((u32, u32), Map<u32, Set<u32>>, nat),
) -> bool {
    &&& c.1 == spec_score_map(g, r, c.0.0, c.0.1)
    &&& c.2 == spec_score(g, r, c.0.0, c.0.1)
    &&& g.dom().contains(c.0.0)
    &&& g.dom().contains(c.0.1)
    &&& c.0.0 != c.0.1
}

/// Folds the candidate list from the front, keeping the first strictly
/// better candidate: the canonical first-wins tie-break.
pub open spec fn spec_scan(
    g: Map<u32, Set<u32>>,
    r: Map<u32, Set<u32>>,
    ps: Seq<(u32, u32)>,
    best: Option<((u32, u32), Map<u32, Set<u32>>, nat)>,
) -> Option<((u32, u32), Map<u32, Set<u32>>, nat)>
    decreases ps.len(),
{
    if ps.len() == 0 {
        best
    } else {
        let p = ps[0];
        let s = spec_score(g, r, p.0, p.1);
        let better = match best {
            Option::None => true,
            Option::Some(c) => s < c.2,
        };
        let nb = if better {
            Option::Some((p, spec_score_map(g, r, p.0, p.1), s))
        } else {
            best
        };
        spec_scan(g, r, ps.skip(1), nb)
    }
}

/// The candidate that one greedy step commits: the scan of all unordered
/// pairs of live nodes in canonical order.
pub open spec fn spec_step(g: Map<u32, Set<u32>>, r: Map<u32, Set<u32>>) -> Option<
    ((u32, u32), Map<u32, Set<u32>>, nat),
> {
    spec_scan(
        g,
        r,
        crate::algo::spec_pairs(crate::graph::spec_sorted_seq(g.dom())),
        Option::None,
    )
}

/// A scan of valid candidates yields a valid candidate, and yields one
/// whenever it has anything to scan.
proof fn lemma_scan_ok(
    g: Map<u32, Set<u32>>,
    r: Map<u32, Set<u32>>,
    ps: Seq<(u32, u32)>,
    best: Option<((u32, u32), Map<u32, Set<u32>>, nat)>,
)
    requires
        forall|k: int| 0 <= k < ps.len() ==> pair_ok(g, #[trigger] ps[k]),
        match best {
            Option::None => true,
            Option::Some(c) => cand_ok(g, r, c),
        },
    ensures
        match spec_scan(g, r, ps, best) {
            Option::None => ps.len() == 0 && best is None,
            Option::Some(c) => cand_ok(g, r, c),
        },
    decreases ps.len(),
{
    if ps.len() > 0 {
        let p = ps[0];
        let s = spec_score(g, r, p.0, p.1);
        let better = match best {
            Option::None => true,
            Option::Some(c) => s < c.2,
        };
        let nb = if better {
            Option::Some((p, spec_score_map(g, r, p.0, p.1), s))
        } else {
            best
        };
        assert(forall|k: int| 0 <= k < ps.skip(1).len() ==> ps.skip(1)[k] == ps[k + 1]);
        lemma_scan_ok(g, r, ps.skip(1), nb);
    }
}

/// A scan splits around any partition of its candidate list.
proof fn lemma_scan_append(
    g: Map<u32, Set<u32>>,
    r: Map<u32, Set<u32>>,
    ps1: Seq<(u32, u32)>,
    ps2: Seq<(u32, u32)>,
    best: Option<((u32, u32), Map<u32, Set<u32>>, nat)>,
)
    ensures
        spec_scan(g, r, ps1 + ps2, best) == spec_scan(g, r, ps2, spec_scan(g, r, ps1, best)),
    decreases ps1.len(),
{
    if ps1.len() == 0 {
        assert(ps1 + ps2 =~= ps2);
    } else {
        let p = ps1[0];
        let s = spec_score(g, r, p.0, p.1);
        let better = match best {
            Option::None => true,
            Option::Some(c) => s < c.2,
        };
        let nb = if better {
            Option::Some((p, spec_score_map(g, r, p.0, p.1), s))
        } else {
            best
        };
        assert((ps1 + ps2).skip(1) =~= ps1.skip(1) + ps2);
        assert((ps1 + ps2)[0] == p);
        lemma_scan_append(g, r, ps1.skip(1), ps2, nb);
    }
}

/// Once a candidate of width zero holds the lead, no later candidate
/// replaces it.
proof fn lemma_scan_zero(
    g: Map<u32, Set<u32>>,
    r: Map<u32, Set<u32>>,
    ps: Seq<(u32, u32)>,
    c: ((u32, u32), Map<u32, Set<u32>>, nat),
)
    requires
        c.2 == 0,
    ensures
        spec_scan(g, r, ps, Option::Some(c)) == Option::Some(c),
    decreases ps.len(),
{
    if ps.len() > 0 {
        lemma_scan_zero(g, r, ps.skip(1), c);
    }
}

/// A scan never yields a worse candidate than the leader it started
/// from or than any candidate it visited.
proof fn lemma_scan_min(
    g: Map<u32, Set<u32>>,
    r: Map<u32, Set<u32>>,
    ps: Seq<(u32, u32)>,
    best: Option<((u32, u32), Map<u32, Set<u32>>, nat)>,
)
    ensures
        match spec_scan(g, r, ps, best) {
            Option::None => true,
            Option::Some(c) => {
                &&& (match best {
                    Option::None => true,
                    Option::Some(b0) => c.2 <= b0.2,
                })
                &&& forall|k: int|
                    0 <= k < ps.len() ==> c.2 <= spec_score(
                        g,
                        r,
                        (#[trigger] ps[k]).0,
                        ps[k].1,
                    )
            },
        },
    decreases ps.len(),
{
    if ps.len() > 0 {
        let p = ps[0];
        let s = spec_score(g, r, p.0, p.1);
        let better = match best {
            Option::None => true,
            Option::Some(c) => s < c.2,
        };
        let nb = if better {
            Option::Some((p, spec_score_map(g, r, p.0, p.1), s))
        } else {
            best
        };
        lemma_scan_min(g, r, ps.skip(1), nb);
        match spec_scan(g, r, ps, best) {
            Option::None => (),
            Option::Some(c) => {
                assert(c.2 <= s) by {
                    if !better {
                        assert(nb == best);
                    }
                }
                assert forall|k: int| 0 <= k < ps.len() implies c.2 <= spec_score(
                    g,
                    r,
                    (#[trigger] ps[k]).0,
                    ps[k].1,
                ) by {
                    if k > 0 {
                        assert(ps.skip(1)[k - 1] == ps[k]);
                    }
                }
            },
        }
    }
}

/// Greedy choice: the candidate that a step commits scores no higher
/// than any unordered pair of live nodes in the canonical enumeration.
pub proof fn lemma_step_minimal(g: Map<u32, Set<u32>>, r: Map<u32, Set<u32>>)
    requires
        g.dom().finite(),
        g.dom().len() >= 2,
    ensures
        ({
            let c = spec_step(g, r)->Some_0;
            let ps = crate::algo::spec_pairs(crate::graph::spec_sorted_seq(g.dom()));
            forall|k: int|
                0 <= k < ps.len() ==> c.2 <= spec_score(g, r, (#[trigger] ps[k]).0, ps[k].1)
        }),
{
    lemma_step_some(g, r);
    lemma_scan_min(
        g,
        r,
        crate::algo::spec_pairs(crate::graph::spec_sorted_seq(g.dom())),
        Option::None,
    );
}

/// With at least two live nodes, the greedy step commits a valid
/// candidate.
pub proof fn lemma_step_some(g: Map<u32, Set<u32>>, r: Map<u32, Set<u32>>)
    requires
        g.dom().finite(),
        g.dom().len() >= 2,
    ensures
        spec_step(g, r) is Some,
        cand_ok(g, r, spec_step(g, r)->Some_0),
{
    let q = crate::graph::spec_sorted_seq(g.dom());
    lemma_sorted_seq_props(g.dom());
    let ps = crate::algo::spec_pairs(q);
    lemma_pairs_nonempty(q);
    lemma_pairs_ok(g, q);
    lemma_scan_ok(g, r, ps, Option::None);
}

/// One greedy run over the model: scans, commits the winning pair,
/// accumulates the width, and recurses until at most one node is left.
pub open spec fn spec_solve(g: Map<u32, Set<u32>>, r: Map<u32, Set<u32>>, w: nat) -> (
    Seq<(u32, u32)>,
    nat,
)
    decreases g.dom().len() when g.dom().finite() via spec_solve_dec
{
    if !g.dom().finite() || g.dom().len() <= 1 {
        (Seq::empty(), w)
    } else {
        match spec_step(g, r) {
            Option::None => (Seq::empty(), w),
            Option::Some(c) => {
                let g2 = crate::graph::spec_contract(g, c.0.0, c.0.1);
                let w2 = if c.2 > w {
                    c.2
                } else {
                    w
                };
                let rec = spec_solve(g2, c.1, w2);
                (seq![c.0] + rec.0, rec.1)
            },
        }
    }
}

/// Scoring a candidate over well-formed graphs yields a well-formed red
/// graph over the surviving nodes.
pub proof fn lemma_score_map_props(g: Map<u32, Set<u32>>, r: Map<u32, Set<u32>>, a: u32, b: u32)
    requires
        crate::graph::wf_map(g),
        crate::graph::wf_map(r),
        r.dom().subset_of(g.dom()),
        g.dom().contains(a),
        g.dom().contains(b),
        a != b,
    ensures
        crate::graph::wf_map(spec_score_map(g, r, a, b)),
        spec_score_map(g, r, a, b).dom().subset_of(g.dom().remove(b)),
{
    let d = spec_diff(g, a, b);
    lemma_diff_in_dom(g, a, b);
    let s0 = set![a, b].union(d);
    let r1 = spec_with_nodes(r, s0);
    assert(s0.finite()) by {
        assert(set![a, b].finite());
    }
    lemma_with_nodes_wf(r, s0);
    let sa = d.intersect(g[a]);
    let sb = d.intersect(g[b]);
    assert(sa.finite() && sb.finite()) by {
        vstd::set_lib::lemma_len_intersect(d, g[a]);
        vstd::set_lib::lemma_len_intersect(d, g[b]);
    }
    let r2 = spec_add_star(r1, a, sa);
    lemma_add_star_wf(r1, a, sa);
    let r3 = spec_add_star(r2, b, sb);
    lemma_add_star_wf(r2, b, sb);
    crate::graph::lemma_contract_wf(r3, a, b);
    assert(spec_score_map(g, r, a, b).dom() =~= r3.dom().remove(b));
    assert forall|v: u32| spec_score_map(g, r, a, b).dom().contains(v) implies g.dom().remove(
        b,
    ).contains(v) by {
        assert(r1.dom().contains(v) && v != b);
        assert(r.dom().contains(v) || s0.contains(v));
    }
}

#[via_fn]
proof fn spec_solve_dec(g: Map<u32, Set<u32>>, r: Map<u32, Set<u32>>, w: nat) {
    if g.dom().finite() && g.dom().len() > 1 {
        match spec_step(g, r) {
            Option::None => (),
            Option::Some(c) => {
                lemma_step_some(g, r);
                assert(crate::graph::spec_contract(g, c.0.0, c.0.1).dom() =~= g.dom().remove(
                    c.0.1,
                ));
            },
        }
    }
}

/// Sequence length: solving a graph of `n ≥ 1` nodes commits exactly
/// `n − 1` contractions; an empty graph commits none.
pub proof fn lemma_solve_length(g: Map<u32, Set<u32>>, r: Map<u32, Set<u32>>, w: nat)
    requires
        g.dom().finite(),
    ensures
        spec_solve(g, r, w).0.len() == (if g.dom().len() >= 1 {
            g.dom().len() - 1
        } else {
            0
        }),
    decreases g.dom().len(),
{
    if g.dom().len() > 1 {
        lemma_step_some(g, r);
        let c = spec_step(g, r)->Some_0;
        let g2 = crate::graph::spec_contract(g, c.0.0, c.0.1);
        assert(g2.dom() =~= g.dom().remove(c.0.1));
        let w2 = if c.2 > w {
            c.2
        } else {
            w
        };
        lemma_solve_length(g2, c.1, w2);
    }
}

/// Width monotonicity: the width that a run reports never falls below
/// the width it started from; since each step starts from the previous
/// step's width, the running maximum is non-decreasing across steps.
pub proof fn lemma_solve_width_monotonic(g: Map<u32, Set<u32>>, r: Map<u32, Set<u32>>, w: nat)
    requires
        g.dom().finite(),
    ensures
        spec_solve(g, r, w).1 >= w,
    decreases g.dom().len(),
{
    if g.dom().len() > 1 {
        match spec_step(g, r) {
            Option::None => (),
            Option::Some(c) => {
                lemma_step_some(g, r);
                let g2 = crate::graph::spec_contract(g, c.0.0, c.0.1);
                assert(g2.dom() =~= g.dom().remove(c.0.1));
                let w2 = if c.2 > w {
                    c.2
                } else {
                    w
                };
                lemma_solve_width_monotonic(g2, c.1, w2);
            },
        }
    }
}

/// An independent replay of a contraction sequence: each step recomputes
/// the red graph exactly as the scorer defines it, folds the maximum red
/// degree seen, and moves to the contracted graph.
pub open spec fn spec_replay(
    g: Map<u32, Set<u32>>,
    r: Map<u32, Set<u32>>,
    steps: Seq<(u32, u32)>,
    w: nat,
) -> nat
    decreases steps.len(),
{
    if steps.len() == 0 {
        w
    } else {
        let p = steps[0];
        let rm = spec_score_map(g, r, p.0, p.1);
        let s = crate::graph::spec_max_degree(rm);
        spec_replay(
            crate::graph::spec_contract(g, p.0, p.1),
            rm,
            steps.skip(1),
            if s > w {
                s
            } else {
                w
            },
        )
    }
}

/// Every step of a sequence names two distinct live nodes of the graph
/// it is replayed against.
pub open spec fn spec_steps_valid(g: Map<u32, Set<u32>>, steps: Seq<(u32, u32)>) -> bool
    decreases steps.len(),
{
    if steps.len() == 0 {
        true
    } else {
        let p = steps[0];
        &&& g.dom().contains(p.0)
        &&& g.dom().contains(p.1)
        &&& p.0 != p.1
        &&& spec_steps_valid(crate::graph::spec_contract(g, p.0, p.1), steps.skip(1))
    }
}

/// Verifier agreement: the width that a run reports is exactly what an
/// independent replay of its committed sequence computes — equivalently,
/// the maximum of the starting width and every committed score.
pub proof fn lemma_solve_replay(g: Map<u32, Set<u32>>, r: Map<u32, Set<u32>>, w: nat)
    requires
        g.dom().finite(),
    ensures
        spec_solve(g, r, w).1 == spec_replay(g, r, spec_solve(g, r, w).0, w),
    decreases g.dom().len(),
{
    if g.dom().len() > 1 {
        lemma_step_some(g, r);
        let c = spec_step(g, r)->Some_0;
        let g2 = crate::graph::spec_contract(g, c.0.0, c.0.1);
        assert(g2.dom() =~= g.dom().remove(c.0.1));
        let w2 = if c.2 > w {
            c.2
        } else {
            w
        };
        lemma_solve_replay(g2, c.1, w2);
        let rest = spec_solve(g2, c.1, w2).0;
        let steps = seq![c.0] + rest;
        assert(steps[0] == c.0);
        assert(steps.skip(1) =~= rest);
    }
}

/// Every sequence that a run commits replays without fault on the graph
/// it was computed from.
pub proof fn lemma_solve_steps_valid(g: Map<u32, Set<u32>>, r: Map<u32, Set<u32>>, w: nat)
    requires
        g.dom().finite(),
    ensures
        spec_steps_valid(g, spec_solve(g, r, w).0),
    decreases g.dom().len(),
{
    if g.dom().len() > 1 {
        lemma_step_some(g, r);
        let c = spec_step(g, r)->Some_0;
        let g2 = crate::graph::spec_contract(g, c.0.0, c.0.1);
        assert(g2.dom() =~= g.dom().remove(c.0.1));
        let w2 = if c.2 > w {
            c.2
        } else {
            w
        };
        lemma_solve_steps_valid(g2, c.1, w2);
        let rest = spec_solve(g2, c.1, w2).0;
        let steps = seq![c.0] + rest;
        assert(steps[0] == c.0);
        assert(steps.skip(1) =~= rest);
    }
}

/// Replays a contraction sequence against a fresh copy of `graph`,
/// recomputing each step's red graph as the scorer defines it, and
/// returns the width the replay observes.  Returns `None` when some step
/// does not name two distinct live nodes.
pub fn replay_width(graph: &Graph, steps: &Vec<(u32, u32)>) -> (r: Option<usize>)
    requires
        graph.wf(),
    ensures
        r is Some <==> spec_steps_valid(graph@, steps@),
        r is Some ==> r->Some_0 as nat == spec_replay(graph@, Map::empty(), steps@, 0),
{
    let mut g = graph.duplicate();
    let mut red = Graph::new();
    let mut w: usize = 0;
    let mut i: usize = 0;
    proof {
        assert(steps@.skip(0) =~= steps@);
        assert(red@.dom().subset_of(g@.dom()));
    }
    while i < steps.len()
        invariant
            i <= steps@.len(),
            g.wf(),
            red.wf(),
            red@.dom().subset_of(g@.dom()),
            spec_steps_valid(graph@, steps@) <==> spec_steps_valid(
                g@,
                steps@.skip(i as int),
            ),
            spec_steps_valid(g@, steps@.skip(i as int)) ==> spec_replay(
                graph@,
                Map::empty(),
                steps@,
                0,
            ) == spec_replay(g@, red@, steps@.skip(i as int), w as nat),
        decreases steps@.len() - i,
    {
        let p = steps[i];
        let a = p.0;
        let b = p.1;
        let nodes = g.get_all_nodes();
        let has_a = crate::graph::vec_mem(&nodes, a);
        let has_b = crate::graph::vec_mem(&nodes, b);
        proof {
            assert(steps@.skip(i as int).len() > 0);
            assert(steps@.skip(i as int)[0] == p);
            assert(nodes@.contains(a) == g@.dom().contains(a));
            assert(nodes@.contains(b) == g@.dom().contains(b));
        }
        if a == b || !has_a || !has_b {
            proof {
                assert(!spec_steps_valid(g@, steps@.skip(i as int)));
            }
            return None;
        }
        let sc = score_candidate(&g, &red, a, b);
        red = sc.0;
        let cr = g.contract_nodes(a, b);
        proof {
            if cr is Err {
                assert(false);
            }
        }
        if sc.1 > w {
            w = sc.1;
        }
        proof {
            assert(steps@.skip(i as int).skip(1) =~= steps@.skip(i as int + 1));
        }
        i += 1;
    }
    proof {
        assert(steps@.skip(steps@.len() as int).len() == 0);
    }
    Some(w)
}

/// Contracting twins is free: when two distinct nodes agree on every
/// neighbour besides each other and no red edges exist yet, scoring
/// their contraction predicts width zero.  This is why the heuristic
/// can finish cograph-like inputs without ever creating a red degree.
pub proof fn lemma_twins_score_zero(g: Map<u32, Set<u32>>, a: u32, b: u32)
    requires
        crate::graph::wf_map(g),
        g.dom().contains(a),
        g.dom().contains(b),
        a != b,
        g[a].remove(b) == g[b].remove(a),
    ensures
        spec_score(g, Map::empty(), a, b) == 0,
{
    let d = spec_diff(g, a, b);
    assert(d =~= Set::empty()) by {
        assert forall|x: u32| !(#[trigger] d.contains(x)) by {
            if d.contains(x) {
                assert(x != a && x != b);
                assert(g[a].remove(b).contains(x) == g[b].remove(a).contains(x));
                assert(g[a].remove(b).contains(x) == g[a].contains(x));
                assert(g[b].remove(a).contains(x) == g[b].contains(x));
                assert(g[a].contains(x) == g[b].contains(x));
                assert(g[a].difference(g[b]).contains(x) || g[b].difference(g[a]).contains(
                    x,
                ));
                assert(false);
            }
        }
    }
    let r0 = Map::<u32, Set<u32>>::empty();
    let s0 = set![a, b].union(d);
    let r1 = spec_with_nodes(r0, s0);
    let r2 = spec_add_star(r1, a, d.intersect(g[a]));
    let r3 = spec_add_star(r2, b, d.intersect(g[b]));
    assert(r2 =~~= r1) by {
        assert(d.intersect(g[a]) =~= Set::empty());
    }
    assert(r3 =~~= r1) by {
        assert(d.intersect(g[b]) =~= Set::empty());
    }
    let m2 = spec_score_map(g, r0, a, b);
    assert(m2.dom() =~= set![a]) by {
        assert(r1.dom() =~= set![a, b]);
    }
    assert(m2[a] =~= Set::<u32>::empty()) by {
        assert(r1[a] =~= Set::<u32>::empty());
        assert(r1[b] =~= Set::<u32>::empty());
    }
    assert forall|v: u32| m2.dom().contains(v) implies (#[trigger] m2[v]).len() <= 0 by {
        assert(v == a);
        assert(m2[v].len() == 0);
    }
    crate::graph::lemma_max_degree_is(m2, 0);
}

/// Determinism: the committed sequence, the reported width and the
/// `.tww` text are functions of the input edge list alone; two graphs
/// built from the same edges solve identically.
pub proof fn lemma_solve_deterministic(
    es: Seq<(u32, u32)>,
    m1: Map<u32, Set<u32>>,
    m2: Map<u32, Set<u32>>,
)
    requires
        m1 == crate::graph::spec_edges_graph(es),
        m2 == crate::graph::spec_edges_graph(es),
    ensures
        spec_solve(m1, Map::empty(), 0) == spec_solve(m2, Map::empty(), 0),
        spec_tww_str(spec_solve(m1, Map::empty(), 0).0) == spec_tww_str(
            spec_solve(m2, Map::empty(), 0).0,
        ),
{
}

/// Greedy twin-width solver state: the working graph, the red edges
/// accumulated so far, the committed contraction sequence, and the
/// largest red degree seen.
pub struct Greedy {
    graph: Graph,
    global_red_edges: Graph,
    contraction_sequence: Vec<(u32, u32)>,
    twin_width: usize,
}

impl Greedy {
    /// The model of the working graph.
    pub closed spec fn spec_graph(self) -> Map<u32, Set<u32>> {
        self.graph@
    }

    /// The model of the red graph.
    pub closed spec fn spec_red(self) -> Map<u32, Set<u32>> {
        self.global_red_edges@
    }

    /// The contraction steps committed so far.
    pub closed spec fn spec_seq(self) -> Seq<(u32, u32)> {
        self.contraction_sequence@
    }

    /// The largest red degree seen so far.
    pub closed spec fn spec_width(self) -> nat {
        self.twin_width as nat
    }

    /// Both graphs are valid and every red edge joins live nodes.
    pub closed spec fn wf(self) -> bool {
        &&& self.graph.wf()
        &&& self.global_red_edges.wf()
        &&& self.global_red_edges@.dom().subset_of(self.graph@.dom())
    }

    /// The working graph, for inspection.
    pub fn get_graph(&self) -> (g: &Graph)
        ensures
            g@ == self.spec_graph(),
    {
        &self.graph
    }

    /// The committed contraction sequence, for inspection.
    pub fn get_contraction_sequence(&self) -> (s: &Vec<(u32, u32)>)
        ensures
            s@ == self.spec_seq(),
    {
        &self.contraction_sequence
    }
}

impl Algo for Greedy {
    /// The invariant of [`Greedy::wf`].
    open spec fn inv(&self) -> bool {
        self.wf()
    }

    /// Starts a solver on `graph` with no red edges, no committed steps,
    /// and width zero.
    fn new_with_graph(graph: Graph) -> (r: Self)
        ensures
            r.spec_graph() == graph@,
            r.spec_red() == Map::<u32, Set<u32>>::empty(),
            r.spec_seq() == Seq::<(u32, u32)>::empty(),
            r.spec_width() == 0,
    {
        Greedy {
            graph,
            global_red_edges: Graph::new(),
            contraction_sequence: Vec::new(),
            twin_width: 0,
        }
    }

    /// The largest red degree any committed contraction has produced.
    fn get_max_red_degree(&self) -> (r: usize)
        ensures
            r as nat == self.spec_width(),
    {
        self.twin_width
    }

    /// Runs the heuristic to completion: every step scores all unordered
    /// pairs of live nodes in canonical order, commits the first pair
    /// with the lowest predicted width (immediately on a width of zero),
    /// and stops when at most one node is left.  Returns the whole
    /// committed contraction sequence and the achieved width, both pinned
    /// to [`spec_solve`] on the starting state.
    fn solve(&mut self) -> (r: (Vec<(u32, u32)>, usize))
        ensures
            final(self).wf(),
            ({
                let sr = spec_solve(
                    old(self).spec_graph(),
                    old(self).spec_red(),
                    old(self).spec_width(),
                );
                &&& r.0@ == old(self).spec_seq() + sr.0
                &&& r.1 as nat == sr.1
                &&& final(self).spec_seq() == r.0@
                &&& final(self).spec_width() == sr.1
                &&& final(self).spec_graph().dom().len() == (if old(
                    self,
                ).spec_graph().dom().len() >= 1 {
                    1nat
                } else {
                    0nat
                })
                &&& forall|v: u32|
                    final(self).spec_graph().dom().contains(v) ==> final(self).spec_graph()[v]
                        == Set::<u32>::empty()
            }),
    {
        let ghost g0 = self.spec_graph();
        let ghost red0 = self.spec_red();
        let ghost w0 = self.spec_width();
        let ghost seq0 = self.spec_seq();
        let mut count = self.graph.get_all_nodes().len();
        while count > 1
            invariant
                self.wf(),
                count as nat == self.spec_graph().dom().len(),
                g0.dom().len() >= 1 ==> count >= 1,
                g0.dom().len() == 0 ==> count == 0,
                self.spec_seq().len() >= seq0.len(),
                self.spec_seq().take(seq0.len() as int) == seq0,
                spec_solve(g0, red0, w0).0 == self.spec_seq().skip(seq0.len() as int)
                    + spec_solve(self.spec_graph(), self.spec_red(), self.spec_width()).0,
                spec_solve(g0, red0, w0).1 == spec_solve(
                    self.spec_graph(),
                    self.spec_red(),
                    self.spec_width(),
                ).1,
            decreases count,
        {
            let ghost gc = self.spec_graph();
            let ghost rc = self.spec_red();
            let ghost wc = self.spec_width();
            let all_nodes = self.graph.get_all_nodes();
            proof {
                crate::graph::lemma_sorted_seq_of(all_nodes@);
                lemma_pairs_ok(gc, crate::graph::spec_sorted_seq(gc.dom()));
                lemma_step_some(gc, rc);
            }
            let pairs = crate::algo::get_all_combinations(all_nodes);
            let mut best: Option<(u32, u32)> = None;
            let mut best_w: usize = 0;
            let mut best_red: Graph = Graph::new();
            let mut i: usize = 0;
            while i < pairs.len()
                invariant
                    self.wf(),
                    self.spec_graph() == gc,
                    self.spec_red() == rc,
                    i <= pairs@.len(),
                    pairs@ == crate::algo::spec_pairs(
                        crate::graph::spec_sorted_seq(gc.dom()),
                    ),
                    forall|k: int| 0 <= k < pairs@.len() ==> pair_ok(gc, #[trigger] pairs@[k]),
                    match spec_scan(gc, rc, pairs@.take(i as int), Option::None) {
                        Option::None => best is None,
                        Option::Some(c) => {
                            &&& best == Option::Some(c.0)
                            &&& best_red@ == c.1
                            &&& best_w as nat == c.2
                            &&& best_red.wf()
                        },
                    },
                decreases pairs@.len() - i,
            {
                let p = pairs[i];
                let a = p.0;
                let b = p.1;
                let ghost prev = spec_scan(gc, rc, pairs@.take(i as int), Option::None);
                let sc = score_candidate(&self.graph, &self.global_red_edges, a, b);
                let w = sc.1;
                let better = match best {
                    None => true,
                    Some(_) => w < best_w,
                };
                if better {
                    best = Some((a, b));
                    best_w = w;
                    best_red = sc.0;
                }
                proof {
                    assert(pairs@.take(i as int + 1) =~= pairs@.take(i as int) + seq![p]);
                    lemma_scan_append(gc, rc, pairs@.take(i as int), seq![p], Option::None);
                    let s = spec_score(gc, rc, p.0, p.1);
                    let better_s = match prev {
                        Option::None => true,
                        Option::Some(c) => s < c.2,
                    };
                    let nb = if better_s {
                        Option::Some((p, spec_score_map(gc, rc, p.0, p.1), s))
                    } else {
                        prev
                    };
                    assert(seq![p][0] == p);
                    assert(seq![p].skip(1).len() == 0);
                    assert(spec_scan(gc, rc, seq![p].skip(1), nb) == nb);
                    assert(spec_scan(gc, rc, seq![p], prev) == nb);
                    assert(better == better_s);
                    assert(spec_scan(gc, rc, pairs@.take(i as int + 1), Option::None) == nb);
                }
                i += 1;
                if better && best_w == 0 {
                    proof {
                        let cur = spec_scan(gc, rc, pairs@.take(i as int), Option::None);
                        assert(cur is Some && (cur->Some_0).2 == 0);
                        lemma_scan_append(
                            gc,
                            rc,
                            pairs@.take(i as int),
                            pairs@.skip(i as int),
                            Option::None,
                        );
                        assert(pairs@.take(i as int) + pairs@.skip(i as int) =~= pairs@);
                        lemma_scan_zero(gc, rc, pairs@.skip(i as int), cur->Some_0);
                        assert(pairs@.take(pairs@.len() as int) =~= pairs@);
                    }
                    i = pairs.len();
                }
            }
            proof {
                assert(pairs@.take(pairs@.len() as int) =~= pairs@);
            }
            let ghost c = spec_step(gc, rc)->Some_0;
            let pb = match best {
                Some(p) => p,
                None => {
                    proof {
                        assert(false);
                    }
                    (0, 0)
                },
            };
            let node_a = pb.0;
            let node_b = pb.1;
            proof {
                assert((node_a, node_b) == c.0);
                lemma_score_map_props(gc, rc, node_a, node_b);
            }
            self.global_red_edges = best_red;
            let cr = self.graph.contract_nodes(node_a, node_b);
            proof {
                if cr is Err {
                    assert(false);
                }
            }
            let ghost seq_pre = self.contraction_sequence@;
            self.contraction_sequence.push((node_a, node_b));
            if best_w > self.twin_width {
                self.twin_width = best_w;
            }
            let n2 = self.graph.get_all_nodes();
            count = n2.len();
            proof {
                let g2 = crate::graph::spec_contract(gc, node_a, node_b);
                assert(g2.dom() =~= gc.dom().remove(node_b));
                assert(self.spec_graph() == g2);
                assert(self.spec_red() == c.1);
                let w2 = if c.2 > wc {
                    c.2
                } else {
                    wc
                };
                assert(self.spec_width() == w2);
                assert(spec_solve(gc, rc, wc) == (
                    seq![c.0] + spec_solve(g2, c.1, w2).0,
                    spec_solve(g2, c.1, w2).1,
                ));
                assert(self.spec_seq() == seq_pre.push((node_a, node_b)));
                assert(self.spec_seq().take(seq0.len() as int) =~= seq0);
                assert(self.spec_seq().skip(seq0.len() as int) =~= seq_pre.skip(
                    seq0.len() as int,
                ) + seq![c.0]);
                assert(seq_pre.skip(seq0.len() as int) + (seq![c.0] + spec_solve(
                    g2,
                    c.1,
                    w2,
                ).0) =~= (seq_pre.skip(seq0.len() as int) + seq![c.0]) + spec_solve(
                    g2,
                    c.1,
                    w2,
                ).0);
            }
        }
        proof {
            assert(spec_solve(self.spec_graph(), self.spec_red(), self.spec_width()).0
                == Seq::<(u32, u32)>::empty());
            assert(self.spec_seq().skip(seq0.len() as int) + Seq::<(u32, u32)>::empty()
                =~= self.spec_seq().skip(seq0.len() as int));
            assert(self.spec_seq() =~= seq0 + self.spec_seq().skip(seq0.len() as int));
            crate::graph::lemma_single_node_no_neighbours(self.spec_graph());
        }
        let out = clone_pairs(&self.contraction_sequence);
        (out, self.twin_width)
    }

    /// The committed contraction sequence in the `.tww` text format: one
    /// `"<a> <b>"` line per step, each ended by a newline.
    fn output_tww_str(&self) -> (r: String)
        ensures
            r@ == spec_tww_str(self.spec_seq()),
    {
        let mut tww = String::new();
        let mut i: usize = 0;
        while i < self.contraction_sequence.len()
            invariant
                i <= self.contraction_sequence@.len(),
                tww@ == spec_tww_str(self.contraction_sequence@.take(i as int)),
            decreases self.contraction_sequence@.len() - i,
        {
            let p = self.contraction_sequence[i];
            let sa = u32_to_string(p.0);
            let sb = u32_to_string(p.1);
            tww.append(sa.as_str());
            tww.append(" ");
            tww.append(sb.as_str());
            tww.append("\n");
            proof {
                reveal_strlit(" ");
                reveal_strlit("\n");
                let t = self.contraction_sequence@.take(i as int + 1);
                assert(t.drop_last() =~= self.contraction_sequence@.take(i as int));
                assert(t.last() == p);
                assert(" "@ =~= seq![' ']);
                assert("\n"@ =~= seq!['\n']);
            }
            i += 1;
        }
        proof {
            assert(self.contraction_sequence@.take(self.contraction_sequence@.len() as int)
                =~= self.contraction_sequence@);
        }
        tww
    }
}

} // verus!
