//! What holds of the graph across its operations.
use vstd::prelude::*;
use crate::graph::{instance, instances, linked_inputs, shortest_list, evaluated, evaluation_of, first_node, host_answers, lemma_first_node_ids, named, op_arguments, op_scalars, Host, Node};
use crate::ops::Spec;
use crate::value::{functional, laced, lemma_laced_unique, Json};
use crate::graph::{lemma_first_node, scheduled, arriving, field_value, first_link_into, ids, same_port, untouched, GraphModel, acyclic, blocked, edge, is_path, layered, lemma_reachable_self, lemma_reachable_step, not_into, outside, ready, reachable, unblocked, Link, NodeId, Port};

verus! {

broadcast use vstd::seq_lib::group_filter_ensures;

/// Reachability composes.
pub proof fn lemma_reachable_trans(links: Seq<Link>, x: NodeId, y: NodeId, z: NodeId)
    requires
        reachable(links, x, y),
        reachable(links, y, z),
    ensures
        reachable(links, x, z),
{
    let p = choose|p: Seq<NodeId>| #[trigger] is_path(links, p) && p[0] == x && p.last() == y;
    let q = choose|q: Seq<NodeId>| #[trigger] is_path(links, q) && q[0] == y && q.last() == z;
    let w = p + q.drop_first();
    assert forall|i: int| 0 <= i < w.len() - 1 implies edge(links, #[trigger] w[i], w[i + 1]) by {
        if i < p.len() - 1 {
            assert(w[i] == p[i] && w[i + 1] == p[i + 1]);
        } else {
            let m = i - (p.len() - 1);
            assert(w[i] == q[m] && w[i + 1] == q[m + 1]);
        }
    }
    if q.len() == 1 {
        assert(w =~= p);
    }
    assert(is_path(links, w));
}

/// A link kept by a filter is a link of the whole.
pub proof fn lemma_edge_filter(links: Seq<Link>, keep: spec_fn(Link) -> bool, a: NodeId, b: NodeId)
    requires
        edge(links.filter(keep), a, b),
    ensures
        edge(links, a, b),
{
    let f = links.filter(keep);
    let i = choose|i: int| 0 <= i < f.len() && #[trigger] f[i].from.node == a && f[i].to.node == b;
    assert(f.contains(f[i]));
    links.lemma_filter_contains_rev(keep, f[i]);
    let j = choose|j: int| 0 <= j < links.len() && links[j] == f[i];
    assert(links[j].from.node == a);
}

/// Walks after a new link from `f` to `t` either avoid it, or pass `f` and then start again at `t`.
proof fn lemma_walk_with_link(links: Seq<Link>, extra: Link, p: Seq<NodeId>, k: int)
    requires
        is_path(links.push(extra), p),
        0 <= k < p.len(),
    ensures
        reachable(links, p[0], p[k]) || (reachable(links, p[0], extra.from.node) && reachable(links, extra.to.node, p[k])),
    decreases k,
{
    let l2 = links.push(extra);
    if k == 0 {
        lemma_reachable_self(links, p[0]);
    } else {
        lemma_walk_with_link(links, extra, p, k - 1);
        assert(edge(l2, p[k - 1], p[k]));
        let i = choose|i: int| 0 <= i < l2.len() && #[trigger] l2[i].from.node == p[k - 1] && l2[i].to.node == p[k];
        if i < links.len() {
            assert(l2[i] == links[i]);
            assert(edge(links, p[k - 1], p[k]));
            if reachable(links, p[0], p[k - 1]) {
                lemma_reachable_step(links, p[0], p[k - 1], p[k]);
            } else {
                lemma_reachable_step(links, extra.to.node, p[k - 1], p[k]);
            }
        } else {
            lemma_reachable_self(links, extra.to.node);
            if reachable(links, p[0], p[k - 1]) {
            }
        }
    }
}

/// `connect` never closes a loop: a graph without loops keeps none after a
/// link that `connect` accepts.
pub proof fn lemma_connect_keeps_acyclic(links: Seq<Link>, from: Port, to: Port)
    requires
        acyclic(links),
        from.node != to.node,
        !reachable(links, to.node, from.node),
    ensures
        acyclic(links.filter(not_into(to)).push(Link { from, to })),
{
    let kept = links.filter(not_into(to));
    let extra = Link { from, to };
    let l2 = kept.push(extra);
    assert forall|a: NodeId, b: NodeId| #[trigger] edge(l2, a, b) implies !reachable(l2, b, a) by {
        if reachable(l2, b, a) {
            let p = choose|p: Seq<NodeId>| #[trigger] is_path(l2, p) && p[0] == b && p.last() == a;
            lemma_walk_with_link(kept, extra, p, p.len() - 1);
            let i = choose|i: int| 0 <= i < l2.len() && #[trigger] l2[i].from.node == a && l2[i].to.node == b;
            assert forall|x: NodeId, y: NodeId| reachable(kept, x, y) implies reachable(links, x, y) by {
                lemma_reachable_within(links, not_into(to), x, y);
            }
            if i < kept.len() {
                assert(l2[i] == kept[i]);
                assert(edge(kept, a, b));
                lemma_edge_filter(links, not_into(to), a, b);
                if reachable(kept, b, a) {
                    assert(reachable(links, b, a));
                } else {
                    // to ~> a -> b ~> from
                    assert(reachable(links, to.node, a));
                    assert(reachable(links, b, from.node));
                    lemma_reachable_step(links, to.node, a, b);
                    lemma_reachable_trans(links, to.node, b, from.node);
                }
            } else {
                assert(a == from.node && b == to.node);
            }
        }
    }
}

/// Reachability along kept links is reachability along all links.
pub proof fn lemma_reachable_within(links: Seq<Link>, keep: spec_fn(Link) -> bool, x: NodeId, y: NodeId)
    requires
        reachable(links.filter(keep), x, y),
    ensures
        reachable(links, x, y),
{
    let f = links.filter(keep);
    let p = choose|p: Seq<NodeId>| #[trigger] is_path(f, p) && p[0] == x && p.last() == y;
    assert forall|i: int| 0 <= i < p.len() - 1 implies edge(links, #[trigger] p[i], p[i + 1]) by {
        assert(edge(f, p[i], p[i + 1]));
        lemma_edge_filter(links, keep, p[i], p[i + 1]);
    }
    assert(is_path(links, p));
}


/// Every node that `layered` lists is pending.
pub proof fn lemma_layered_within(links: Seq<Link>, pending: Seq<NodeId>)
    ensures
        forall|x: NodeId| #[trigger] layered(links, pending).contains(x) ==> pending.contains(x),
    decreases pending.len(),
{
    let r = ready(links, pending);
    if r.len() > 0 {
        let rest = pending.filter(outside(r));
        crate::graph::lemma_round_shrinks(links, pending);
        lemma_layered_within(links, rest);
        assert(layered(links, pending) == r + layered(links, rest));
        assert forall|x: NodeId| #[trigger] layered(links, pending).contains(x) implies pending.contains(x) by {
            let lay = layered(links, pending);
            let k = choose|k: int| 0 <= k < lay.len() && lay[k] == x;
            if k < r.len() {
                assert(r[k] == x);
                assert(r.contains(x));
                pending.lemma_filter_contains_rev(unblocked(links, pending), x);
            } else {
                assert(layered(links, rest)[k - r.len()] == x);
                assert(layered(links, rest).contains(x));
                pending.lemma_filter_contains_rev(outside(r), x);
            }
        }
    }
}

/// The order puts the source of every link before its target.
pub proof fn lemma_layered_topological(links: Seq<Link>, pending: Seq<NodeId>, k: int, i: int, j: int)
    requires
        0 <= k < links.len(),
        0 <= i < layered(links, pending).len(),
        0 <= j < layered(links, pending).len(),
        layered(links, pending)[i] == links[k].from.node,
        layered(links, pending)[j] == links[k].to.node,
    ensures
        i < j,
    decreases pending.len(),
{
    let r = ready(links, pending);
    let lay = layered(links, pending);
    if r.len() > 0 {
        let rest = pending.filter(outside(r));
        crate::graph::lemma_round_shrinks(links, pending);
        assert(lay == r + layered(links, rest));
        if j < r.len() {
            let t = r[j];
            lemma_layered_within(links, pending);
            assert(lay.contains(links[k].from.node));
            assert(pending.contains(links[k].from.node));
            assert(links[k].to.node == t);
            assert(blocked(links, pending, t));
            assert(r.contains(t));
            pending.lemma_filter_contains_rev(unblocked(links, pending), t);
            let m = choose|m: int| 0 <= m < r.len() && r[m] == t;
            assert((unblocked(links, pending))(r[m]));
            assert(false);
        } else if i >= r.len() {
            lemma_layered_topological(links, rest, k, i - r.len(), j - r.len());
        }
    }
}

/// A filter of a list without repeats has none either.
pub proof fn lemma_filter_no_duplicates(s: Seq<NodeId>, keep: spec_fn(NodeId) -> bool)
    requires
        s.no_duplicates(),
    ensures
        s.filter(keep).no_duplicates(),
    decreases s.len(),
{
    reveal(Seq::filter);
    if s.len() > 0 {
        let init = s.drop_last();
        assert(init.no_duplicates());
        lemma_filter_no_duplicates(init, keep);
        if keep(s.last()) {
            let f = init.filter(keep);
            assert forall|a: int, b: int| 0 <= a < b < f.len() + 1 implies f.push(s.last())[a] != f.push(s.last())[b] by {
                if b == f.len() {
                    assert(f.contains(f[a]));
                    init.lemma_filter_contains_rev(keep, f[a]);
                    let w = choose|w: int| 0 <= w < init.len() && init[w] == f[a];
                    assert(s[w] == init[w]);
                }
            }
        }
    }
}

/// Given distinct pending nodes, the order lists no node twice.
pub proof fn lemma_layered_no_duplicates(links: Seq<Link>, pending: Seq<NodeId>)
    requires
        pending.no_duplicates(),
    ensures
        layered(links, pending).no_duplicates(),
    decreases pending.len(),
{
    let r = ready(links, pending);
    if r.len() > 0 {
        let rest = pending.filter(outside(r));
        crate::graph::lemma_round_shrinks(links, pending);
        lemma_filter_no_duplicates(pending, unblocked(links, pending));
        lemma_filter_no_duplicates(pending, outside(r));
        lemma_layered_no_duplicates(links, rest);
        lemma_layered_within(links, rest);
        let tail = layered(links, rest);
        assert(layered(links, pending) == r + tail);
        assert forall|a: int, b: int| 0 <= a < b < r.len() + tail.len() implies (r + tail)[a] != (r + tail)[b] by {
            if a < r.len() && b >= r.len() {
                let y = tail[b - r.len()];
                assert(tail.contains(y));
                assert(rest.contains(y));
                let m = choose|m: int| 0 <= m < rest.len() && rest[m] == y;
                assert((outside(r))(rest[m]));
                assert(r[a] == (r + tail)[a]);
                if r[a] == y {
                    assert(r.contains(y));
                }
            }
        }
    }
}

/// The node a blocked node is reached from.
spec fn source_of(links: Seq<Link>, pending: Seq<NodeId>, x: NodeId) -> NodeId {
    links[choose|i: int| 0 <= i < links.len() && #[trigger] links[i].to.node == x && pending.contains(links[i].from.node)].from.node
}

/// A walk backwards from `start`, `k` steps against the links.
spec fn back_walk(links: Seq<Link>, pending: Seq<NodeId>, start: NodeId, k: nat) -> Seq<NodeId>
    decreases k,
{
    if k == 0 {
        seq![start]
    } else {
        let w = back_walk(links, pending, start, (k - 1) as nat);
        w.push(source_of(links, pending, w.last()))
    }
}

proof fn lemma_back_walk(links: Seq<Link>, pending: Seq<NodeId>, start: NodeId, k: nat)
    requires
        pending.contains(start),
        forall|x: NodeId| pending.contains(x) ==> #[trigger] blocked(links, pending, x),
    ensures
        back_walk(links, pending, start, k).len() == k + 1,
        back_walk(links, pending, start, k)[0] == start,
        forall|m: int| 0 <= m <= k ==> pending.contains(#[trigger] back_walk(links, pending, start, k)[m]),
        forall|m: int| 0 <= m < k ==> edge(links, #[trigger] back_walk(links, pending, start, k)[m + 1], back_walk(links, pending, start, k)[m]),
    decreases k,
{
    if k > 0 {
        lemma_back_walk(links, pending, start, (k - 1) as nat);
        let w = back_walk(links, pending, start, (k - 1) as nat);
        let x = w.last();
        assert(pending.contains(w[k - 1]));
        assert(blocked(links, pending, x));
        let i = choose|i: int| 0 <= i < links.len() && #[trigger] links[i].to.node == x && pending.contains(links[i].from.node);
        let v = back_walk(links, pending, start, k);
        assert(v == w.push(links[i].from.node));
        assert forall|m: int| 0 <= m < k implies edge(links, #[trigger] v[m + 1], v[m]) by {
            if m < k - 1 {
                assert(v[m + 1] == w[m + 1] && v[m] == w[m]);
            } else {
                assert(v[m] == x);
            }
        }
        assert forall|m: int| 0 <= m <= k implies pending.contains(#[trigger] v[m]) by {
            if m < k {
                assert(v[m] == w[m]);
            }
        }
    }
}

/// Without loops, some pending node is always ready.
pub proof fn lemma_some_ready(links: Seq<Link>, pending: Seq<NodeId>)
    requires
        acyclic(links),
        pending.len() > 0,
    ensures
        ready(links, pending).len() > 0,
{
    if ready(links, pending).len() == 0 {
        assert forall|x: NodeId| pending.contains(x) implies #[trigger] blocked(links, pending, x) by {
            if !blocked(links, pending, x) {
                let m = choose|m: int| 0 <= m < pending.len() && pending[m] == x;
                pending.lemma_filter_contains(unblocked(links, pending), m);
            }
        }
        let n = pending.len();
        assert(pending.contains(pending[0]));
        lemma_back_walk(links, pending, pending[0], n);
        let w = back_walk(links, pending, pending[0], n);
        if w.no_duplicates() {
            w.unique_seq_to_set();
            pending.lemma_cardinality_of_set();
            assert(w.to_set().subset_of(pending.to_set())) by {
                assert forall|x: NodeId| w.to_set().contains(x) implies pending.to_set().contains(x) by {
                    let m = choose|m: int| 0 <= m < w.len() && w[m] == x;
                    assert(pending.contains(w[m]));
                }
            }
            vstd::set_lib::lemma_len_subset(w.to_set(), pending.to_set());
        } else {
            let (a, b) = choose|a: int, b: int| 0 <= a < w.len() && 0 <= b < w.len() && a != b && w[a] == w[b];
            let i = if a < b { a } else { b };
            let j = if a < b { b } else { a };
            assert(w[i] == w[j]);
            // w[j] -> w[j - 1] is a link, and the walk leads from w[j - 1] back to w[i] == w[j].
            let jm = j - 1;
            assert(edge(links, w[jm + 1], w[jm]));
            assert(jm + 1 == j);
            let q = Seq::new((j - i) as nat, |m: int| w[j - 1 - m]);
            assert forall|m: int| 0 <= m < q.len() - 1 implies edge(links, #[trigger] q[m], q[m + 1]) by {
                assert(q[m] == w[(j - 2 - m) + 1]);
                assert(q[m + 1] == w[j - 2 - m]);
            }
            assert(is_path(links, q));
            assert(reachable(links, w[j - 1], w[j]));
        }
    }
}

/// Without loops, the order lists every pending node.
pub proof fn lemma_layered_complete(links: Seq<Link>, pending: Seq<NodeId>)
    requires
        acyclic(links),
    ensures
        forall|x: NodeId| pending.contains(x) ==> #[trigger] layered(links, pending).contains(x),
    decreases pending.len(),
{
    if pending.len() > 0 {
        lemma_some_ready(links, pending);
        let r = ready(links, pending);
        let rest = pending.filter(outside(r));
        crate::graph::lemma_round_shrinks(links, pending);
        lemma_layered_complete(links, rest);
        let lay = layered(links, pending);
        assert(lay == r + layered(links, rest));
        assert forall|x: NodeId| pending.contains(x) implies #[trigger] lay.contains(x) by {
            if r.contains(x) {
                let m = choose|m: int| 0 <= m < r.len() && r[m] == x;
                assert(lay[m] == x);
            } else {
                let m = choose|m: int| 0 <= m < pending.len() && pending[m] == x;
                pending.lemma_filter_contains(outside(r), m);
                assert(layered(links, rest).contains(x));
                let q = choose|q: int| 0 <= q < layered(links, rest).len() && layered(links, rest)[q] == x;
                assert(lay[q + r.len()] == x);
            }
        }
    }
}


/// Links that are all links of `a` make no loop that `a` does not make.
pub proof fn lemma_fewer_links(a: Seq<Link>, b: Seq<Link>)
    requires
        acyclic(a),
        forall|i: int| 0 <= i < b.len() ==> a.contains(#[trigger] b[i]),
    ensures
        acyclic(b),
{
    assert forall|x: NodeId, y: NodeId| #[trigger] edge(b, x, y) implies edge(a, x, y) by {
        let i = choose|i: int| 0 <= i < b.len() && #[trigger] b[i].from.node == x && b[i].to.node == y;
        assert(a.contains(b[i]));
        let j = choose|j: int| 0 <= j < a.len() && a[j] == b[i];
        assert(a[j].from.node == x);
    }
    assert forall|x: NodeId, y: NodeId| #[trigger] edge(b, x, y) implies !reachable(b, y, x) by {
        if reachable(b, y, x) {
            let p = choose|p: Seq<NodeId>| #[trigger] is_path(b, p) && p[0] == y && p.last() == x;
            assert forall|m: int| 0 <= m < p.len() - 1 implies edge(a, #[trigger] p[m], p[m + 1]) by {
                assert(edge(b, p[m], p[m + 1]));
            }
            assert(is_path(a, p));
        }
    }
}

/// Removing links keeps a graph free of loops: `remove` keeps the links
/// that touch neither end at the node, `disconnect` drops one link.
pub proof fn lemma_removals_keep_acyclic(links: Seq<Link>, id: NodeId, i: int)
    requires
        acyclic(links),
    ensures
        acyclic(links.filter(untouched(id))),
        0 <= i < links.len() ==> acyclic(links.remove(i)),
{
    let f = links.filter(untouched(id));
    assert forall|k: int| 0 <= k < f.len() implies links.contains(#[trigger] f[k]) by {
        assert(f.contains(f[k]));
        links.lemma_filter_contains_rev(untouched(id), f[k]);
    }
    lemma_fewer_links(links, f);
    if 0 <= i < links.len() {
        let r = links.remove(i);
        assert forall|k: int| 0 <= k < r.len() implies links.contains(#[trigger] r[k]) by {
            if k < i {
                assert(r[k] == links[k]);
            } else {
                assert(r[k] == links[k + 1]);
            }
        }
        lemma_fewer_links(links, r);
    }
}

/// After `remove(id)`, no link touches node `id`.
pub proof fn lemma_remove_detaches(links: Seq<Link>, id: NodeId)
    ensures
        forall|k: int| 0 <= k < links.filter(untouched(id)).len() ==>
            (#[trigger] links.filter(untouched(id))[k]).from.node != id && links.filter(untouched(id))[k].to.node != id,
{
    assert forall|k: int| 0 <= k < links.filter(untouched(id)).len() implies
        (#[trigger] links.filter(untouched(id))[k]).from.node != id && links.filter(untouched(id))[k].to.node != id by {
        links.lemma_filter_pred(untouched(id), k);
    }
}

/// After `connect(from, to)` succeeds, the only link into `to` is the new one,
/// so `to` receives `from`'s output and `disconnect(&to)` gives that link back.
pub proof fn lemma_connect_then_input(g: GraphModel, from: Port, to: Port)
    ensures
        ({
            let links = g.links.filter(not_into(to)).push(Link { from, to });
            &&& first_link_into(links, to) == Some(links.len() - 1)
            &&& forall|k: int| 0 <= k < links.len() && same_port(#[trigger] links[k].to, to) ==> k == links.len() - 1
            &&& arriving(GraphModel { links, ..g }, to) == field_value(g.nodes, from.node, from.field@, true)
        }),
{
    let kept = g.links.filter(not_into(to));
    let links = kept.push(Link { from, to });
    assert forall|k: int| 0 <= k < links.len() && same_port(#[trigger] links[k].to, to) implies k == links.len() - 1 by {
        if k < kept.len() {
            g.links.lemma_filter_pred(not_into(to), k);
            assert(links[k] == kept[k]);
        }
    }
    crate::graph::lemma_first_link_into(links, to, links.len() - 1);
}

/// Ids that every node got from `add`: distinct, and none above the last issued.
pub open spec fn well_issued(g: GraphModel) -> bool {
    &&& ids(g.nodes).no_duplicates()
    &&& forall|i: int| 0 <= i < g.nodes.len() ==> #[trigger] g.nodes[i].id <= g.last_id
}

/// `add` keeps ids distinct: the node it appends has an id no other node has.
pub proof fn lemma_add_keeps_ids(g: GraphModel, h: GraphModel)
    requires
        well_issued(g),
        h.last_id == g.last_id + 1,
        h.nodes.len() == g.nodes.len() + 1,
        h.nodes.subrange(0, g.nodes.len() as int) == g.nodes,
        h.nodes.last().id == h.last_id,
    ensures
        well_issued(h),
{
    assert forall|i: int| 0 <= i < h.nodes.len() implies #[trigger] h.nodes[i].id <= h.last_id by {
        if i < g.nodes.len() {
            assert(h.nodes[i] == h.nodes.subrange(0, g.nodes.len() as int)[i]);
        }
    }
    assert forall|a: int, b: int| 0 <= a < b < h.nodes.len() implies ids(h.nodes)[a] != ids(h.nodes)[b] by {
        assert(h.nodes[a] == h.nodes.subrange(0, g.nodes.len() as int)[a]);
        if b < g.nodes.len() {
            assert(h.nodes[b] == h.nodes.subrange(0, g.nodes.len() as int)[b]);
            assert(ids(g.nodes)[a] != ids(g.nodes)[b]);
        } else {
            assert(g.nodes[a].id <= g.last_id);
        }
    }
}

/// `remove` keeps ids distinct.
pub proof fn lemma_remove_keeps_ids(g: GraphModel, p: int)
    requires
        well_issued(g),
        0 <= p < g.nodes.len(),
    ensures
        well_issued(GraphModel { nodes: g.nodes.remove(p), ..g }),
{
    let n = g.nodes.remove(p);
    assert forall|a: int, b: int| 0 <= a < b < n.len() implies ids(n)[a] != ids(n)[b] by {
        let a2 = if a < p { a } else { a + 1 };
        let b2 = if b < p { b } else { b + 1 };
        assert(n[a] == g.nodes[a2] && n[b] == g.nodes[b2]);
        assert(ids(g.nodes)[a2] != ids(g.nodes)[b2]);
    }
    assert forall|i: int| 0 <= i < n.len() implies #[trigger] n[i].id <= g.last_id by {
        if i < p {
            assert(n[i] == g.nodes[i]);
        } else {
            assert(n[i] == g.nodes[i + 1]);
        }
    }
}

/// Keeps the links whose both ends are among `ids`.
pub open spec fn inside(ids: Seq<NodeId>) -> spec_fn(Link) -> bool {
    |l: Link| ids.contains(l.from.node) && ids.contains(l.to.node)
}

/// No loop runs through the nodes `ids` alone; links from or to other ids
/// do not count.
pub open spec fn acyclic_among(links: Seq<Link>, ids: Seq<NodeId>) -> bool {
    acyclic(links.filter(inside(ids)))
}

/// Two filters that agree on every item keep the same items.
proof fn lemma_filter_agree(s: Seq<NodeId>, p: spec_fn(NodeId) -> bool, q: spec_fn(NodeId) -> bool)
    requires
        forall|i: int| 0 <= i < s.len() ==> p(#[trigger] s[i]) == q(s[i]),
    ensures
        s.filter(p) == s.filter(q),
    decreases s.len(),
{
    reveal(Seq::filter);
    if s.len() > 0 {
        assert forall|i: int| 0 <= i < s.drop_last().len() implies p(#[trigger] s.drop_last()[i]) == q(s.drop_last()[i]) by {
            assert(s.drop_last()[i] == s[i]);
        }
        lemma_filter_agree(s.drop_last(), p, q);
        assert(p(s[s.len() - 1]) == q(s[s.len() - 1]));
    }
}

/// When every pending node is among `ids`, only the links among `ids`
/// decide the order.
pub proof fn lemma_layered_inside(links: Seq<Link>, pending: Seq<NodeId>, ids: Seq<NodeId>)
    requires
        forall|x: NodeId| pending.contains(x) ==> ids.contains(x),
    ensures
        layered(links, pending) == layered(links.filter(inside(ids)), pending),
    decreases pending.len(),
{
    let inner = links.filter(inside(ids));
    assert forall|i: int| 0 <= i < pending.len() implies (unblocked(links, pending))(#[trigger] pending[i])
        == (unblocked(inner, pending))(pending[i]) by {
        let id = pending[i];
        assert(pending.contains(id));
        if blocked(links, pending, id) {
            let k = choose|k: int| 0 <= k < links.len() && #[trigger] links[k].to.node == id && pending.contains(links[k].from.node);
            links.lemma_filter_contains(inside(ids), k);
            let m = choose|m: int| 0 <= m < inner.len() && inner[m] == links[k];
            assert(inner[m].to.node == id);
        }
        if blocked(inner, pending, id) {
            let m = choose|m: int| 0 <= m < inner.len() && #[trigger] inner[m].to.node == id && pending.contains(inner[m].from.node);
            assert(inner.contains(inner[m]));
            links.lemma_filter_contains_rev(inside(ids), inner[m]);
            let k = choose|k: int| 0 <= k < links.len() && links[k] == inner[m];
            assert(links[k].to.node == id);
        }
    }
    lemma_filter_agree(pending, unblocked(links, pending), unblocked(inner, pending));
    let r = ready(links, pending);
    assert(r == ready(inner, pending));
    if r.len() > 0 {
        crate::graph::lemma_round_shrinks(links, pending);
        let rest = pending.filter(outside(r));
        assert forall|x: NodeId| rest.contains(x) implies ids.contains(x) by {
            pending.lemma_filter_contains_rev(outside(r), x);
        }
        lemma_layered_inside(links, rest, ids);
    }
}

/// On a graph without loops among its nodes whose ids are distinct, `order`
/// lists every node exactly once, each link's source before its target.
pub proof fn lemma_order_sorts(g: GraphModel)
    requires
        acyclic_among(g.links, ids(g.nodes)),
        ids(g.nodes).no_duplicates(),
    ensures
        ({
            let order = layered(g.links, ids(g.nodes));
            &&& order.no_duplicates()
            &&& forall|i: int| 0 <= i < g.nodes.len() ==> order.contains(#[trigger] g.nodes[i].id)
            &&& forall|x: NodeId| #[trigger] order.contains(x) ==> ids(g.nodes).contains(x)
            &&& forall|k: int, i: int, j: int|
                #![trigger order[i], order[j], g.links[k]]
                0 <= k < g.links.len() && 0 <= i < order.len() && 0 <= j < order.len()
                    && order[i] == g.links[k].from.node && order[j] == g.links[k].to.node ==> i < j
        }),
{
    let pending = ids(g.nodes);
    let order = layered(g.links, pending);
    lemma_layered_no_duplicates(g.links, pending);
    lemma_layered_inside(g.links, pending, pending);
    lemma_layered_complete(g.links.filter(inside(pending)), pending);
    lemma_layered_within(g.links, pending);
    assert forall|i: int| 0 <= i < g.nodes.len() implies order.contains(#[trigger] g.nodes[i].id) by {
        assert(pending[i] == g.nodes[i].id);
        assert(pending.contains(pending[i]));
    }
    assert forall|k: int, i: int, j: int|
        #![trigger order[i], order[j], g.links[k]]
        0 <= k < g.links.len() && 0 <= i < order.len() && 0 <= j < order.len()
            && order[i] == g.links[k].from.node && order[j] == g.links[k].to.node implies i < j by {
        lemma_layered_topological(g.links, pending, k, i, j);
    }
}


/// On a graph without loops among its nodes whose ids are distinct,
/// `evaluate` evaluates every node: each one is scheduled in the order it computes.
pub proof fn lemma_every_node_scheduled(g: GraphModel)
    requires
        acyclic_among(g.links, ids(g.nodes)),
        ids(g.nodes).no_duplicates(),
    ensures
        forall|i: int| 0 <= i < g.nodes.len() ==> #[trigger] scheduled(g.nodes, layered(g.links, ids(g.nodes)), i),
{
    lemma_order_sorts(g);
    assert forall|i: int| 0 <= i < g.nodes.len() implies #[trigger] scheduled(g.nodes, layered(g.links, ids(g.nodes)), i) by {
        assert forall|j: int| 0 <= j < i implies g.nodes[j].id != g.nodes[i].id by {
            assert(ids(g.nodes)[j] != ids(g.nodes)[i]);
        }
        lemma_first_node(g.nodes, g.nodes[i].id, i);
    }
}

/// How one operation may move the last id: `add` raises it by one; `remove`,
/// `connect`, `disconnect`, `node_mut` and `evaluate` keep it.
pub open spec fn id_step(g: GraphModel, h: GraphModel) -> bool {
    h.last_id == g.last_id || h.last_id == g.last_id + 1
}

/// The last id never falls along a run of operations.
proof fn lemma_last_id_grows(run: Seq<GraphModel>, a: int, b: int)
    requires
        forall|k: int| 0 <= k < run.len() - 1 ==> #[trigger] id_step(run[k], run[k + 1]),
        0 <= a <= b < run.len(),
    ensures
        run[a].last_id <= run[b].last_id,
    decreases b - a,
{
    if a < b {
        lemma_last_id_grows(run, a, b - 1);
        let k = b - 1;
        assert(id_step(run[k], run[k + 1]));
    }
}

/// Ids keep increasing: along any run of operations, an id that `add` hands
/// out (the step from `run[j]` to `run[j + 1]`) is above every id handed out
/// by an earlier `add`, so the id of a removed node is never handed out again.
pub proof fn lemma_ids_increase(run: Seq<GraphModel>, i: int, j: int)
    requires
        forall|k: int| 0 <= k < run.len() - 1 ==> #[trigger] id_step(run[k], run[k + 1]),
        0 <= i < j,
        j + 1 < run.len(),
        run[j + 1].last_id == run[j].last_id + 1,
    ensures
        run[i + 1].last_id < run[j + 1].last_id,
{
    lemma_last_id_grows(run, i + 1, j);
}

/// Evaluating a second time changes nothing: on a graph of operation nodes
/// without loops among them, when the host gives one answer to each operation's call on
/// the same arguments, a second `evaluate` leaves every node's outputs as the
/// first one left them.
pub proof fn lemma_evaluate_twice<H: Host>(g0: GraphModel, g1: GraphModel, g2: GraphModel)
    requires
        evaluation_of::<H>(g0, g1),
        evaluation_of::<H>(g1, g2),
        acyclic_among(g0.links, ids(g0.nodes)),
        forall|i: int| 0 <= i < g0.nodes.len() ==> (#[trigger] g0.nodes[i]).kind is Op,
        forall|op: Spec| #[trigger] functional(host_answers::<H>(op)),
    ensures
        g2.nodes.len() == g1.nodes.len(),
        forall|i: int| 0 <= i < g1.nodes.len() ==> (#[trigger] g2.nodes[i]).outputs@ == g1.nodes[i].outputs@,
{
    assert(ids(g1.nodes) =~= ids(g0.nodes));
    let order = layered(g1.links, ids(g1.nodes));
    lemma_layered_inside(g1.links, ids(g1.nodes), ids(g1.nodes));
    lemma_layered_complete(g1.links.filter(inside(ids(g1.nodes))), ids(g1.nodes));
    assert forall|i: int| 0 <= i < g1.nodes.len() implies order.contains(#[trigger] g1.nodes[i].id) by {
        assert(ids(g1.nodes)[i] == g1.nodes[i].id);
    }
    assert forall|i: int| 0 <= i < g1.nodes.len() implies {
        &&& g1.nodes[i].kind is Op
        &&& if first_node(g1.nodes, (#[trigger] g1.nodes[i]).id) == Some(i) {
            evaluated::<H>(g1, g1.nodes[i]) && evaluated::<H>(g2, g2.nodes[i])
        } else {
            g2.nodes[i].outputs == g1.nodes[i].outputs
        }
    } by {
        assert(g1.nodes[i].kind == g0.nodes[i].kind);
        lemma_first_node_ids(g0.nodes, g1.nodes, g1.nodes[i].id);
        if first_node(g1.nodes, g1.nodes[i].id) == Some(i) {
            assert(scheduled(g0.nodes, layered(g0.links, ids(g0.nodes)), i));
            assert(scheduled(g1.nodes, order, i));
        } else {
            assert(!scheduled(g1.nodes, order, i));
        }
    }
    lemma_twice_upto::<H>(g1, g2, order, order.len() as int);
    assert forall|i: int| 0 <= i < g1.nodes.len() implies (#[trigger] g2.nodes[i]).outputs@ == g1.nodes[i].outputs@ by {
        assert(order.contains(g1.nodes[i].id));
    }
}

/// The nodes whose ids the order lists before position `s` keep their outputs.
proof fn lemma_twice_upto<H: Host>(g1: GraphModel, g2: GraphModel, order: Seq<NodeId>, s: int)
    requires
        g2.links == g1.links,
        g2.nodes.len() == g1.nodes.len(),
        forall|i: int| 0 <= i < g1.nodes.len() ==> {
            &&& (#[trigger] g2.nodes[i]).id == g1.nodes[i].id
            &&& g2.nodes[i].kind == g1.nodes[i].kind
            &&& g2.nodes[i].params == g1.nodes[i].params
        },
        order == layered(g1.links, ids(g1.nodes)),
        forall|i: int| 0 <= i < g1.nodes.len() ==> order.contains(#[trigger] g1.nodes[i].id),
        forall|i: int| 0 <= i < g1.nodes.len() ==> {
            &&& g1.nodes[i].kind is Op
            &&& if first_node(g1.nodes, (#[trigger] g1.nodes[i]).id) == Some(i) {
                evaluated::<H>(g1, g1.nodes[i]) && evaluated::<H>(g2, g2.nodes[i])
            } else {
                g2.nodes[i].outputs == g1.nodes[i].outputs
            }
        },
        forall|op: Spec| #[trigger] functional(host_answers::<H>(op)),
        0 <= s <= order.len(),
    ensures
        forall|i: int, m: int|
            0 <= i < g1.nodes.len() && 0 <= m < s && #[trigger] order[m] == (#[trigger] g1.nodes[i]).id
                ==> g2.nodes[i].outputs@ == g1.nodes[i].outputs@,
    decreases s,
{
    if s == 0 {
        return;
    }
    lemma_twice_upto::<H>(g1, g2, order, s - 1);
    let y = order[s - 1];
    assert forall|i: int| 0 <= i < g1.nodes.len() && #[trigger] g1.nodes[i].id == y
        implies g2.nodes[i].outputs@ == g1.nodes[i].outputs@ by {
        if first_node(g1.nodes, y) != Some(i) {
            assert(g2.nodes[i].outputs == g1.nodes[i].outputs);
        } else {
            assert(g1.nodes[i].kind is Op);
            let spec = g1.nodes[i].kind->Op_0;
            assert forall|port: Port| port.node == y implies #[trigger] arriving(g2, port) == arriving(g1, port) by {
                match first_link_into(g1.links, port) {
                    Some(k) => {
                        let z = g1.links[k].from.node;
                        lemma_first_node_ids(g1.nodes, g2.nodes, z);
                        if let Some(q) = first_node(g1.nodes, z) {
                            assert(order.contains(g1.nodes[q].id));
                            let m = choose|m: int| 0 <= m < order.len() && order[m] == z;
                            lemma_layered_topological(g1.links, ids(g1.nodes), k, m, s - 1);
                            assert(g2.nodes[q].outputs@ == g1.nodes[q].outputs@);
                        }
                    },
                    None => {
                        lemma_first_node_ids(g1.nodes, g2.nodes, port.node);
                    },
                }
            }
            assert(op_arguments(g2, y, spec) =~= op_arguments(g1, y, spec));
            let n1: Node = g1.nodes[i];
            let n2: Node = g2.nodes[i];
            let v1 = choose|v: Seq<Json>|
                #[trigger] laced(host_answers::<H>(spec), op_arguments(g1, y, spec), op_scalars(spec), spec.outputs@.len(), v)
                    && v.len() == spec.outputs@.len()
                    && n1.outputs@ == named(spec.outputs@, v, spec.outputs@.len());
            let v2 = choose|v: Seq<Json>|
                #[trigger] laced(host_answers::<H>(spec), op_arguments(g2, y, spec), op_scalars(spec), spec.outputs@.len(), v)
                    && v.len() == spec.outputs@.len()
                    && n2.outputs@ == named(spec.outputs@, v, spec.outputs@.len());
            assert(functional(host_answers::<H>(spec)));
            lemma_laced_unique(host_answers::<H>(spec), op_arguments(g1, y, spec), op_scalars(spec), spec.outputs@.len(), v1, v2);
        }
    }
    assert forall|i: int, m: int|
        0 <= i < g1.nodes.len() && 0 <= m < s && #[trigger] order[m] == (#[trigger] g1.nodes[i]).id
            implies g2.nodes[i].outputs@ == g1.nodes[i].outputs@ by {
        if m < s - 1 {
        } else {
            assert(g1.nodes[i].id == y);
        }
    }
}

/// Linked values none of which is a list give no shortest list, and the one
/// object made from them holds each of them.
proof fn lemma_plain_pairs(pairs: Seq<(Seq<char>, Json)>)
    requires
        forall|i: int| 0 <= i < pairs.len() ==> !((#[trigger] pairs[i]).1 is Array),
    ensures
        shortest_list(pairs) is None,
        instance(pairs, 0) == pairs,
    decreases pairs.len(),
{
    if pairs.len() > 0 {
        let rest = pairs.drop_last();
        assert forall|i: int| 0 <= i < rest.len() implies !((#[trigger] rest[i]).1 is Array) by {
            assert(rest[i] == pairs[i]);
        }
        lemma_plain_pairs(rest);
        assert(!(pairs[pairs.len() - 1].1 is Array));
        assert(rest.push(pairs.last()) =~= pairs);
    }
}

/// An object node none of whose linked values is a list makes exactly one
/// object, which holds every linked field with the value arriving there.
pub proof fn lemma_plain_inputs_make_one_object(g: GraphModel, id: NodeId)
    requires
        forall|i: int| 0 <= i < linked_inputs(g, id).len() ==> !((#[trigger] linked_inputs(g, id)[i]).1 is Array),
    ensures
        instances(g, id) == seq![linked_inputs(g, id)],
{
    lemma_plain_pairs(linked_inputs(g, id));
    assert(instances(g, id) =~= seq![linked_inputs(g, id)]);
}

/// The shortest list among some linked values is no longer than any of them
/// and as long as one; there is one exactly when some value is a list.
proof fn lemma_shortest_list_bounds(pairs: Seq<(Seq<char>, Json)>)
    ensures
        shortest_list(pairs) is Some <==> exists|i: int| 0 <= i < pairs.len() && (#[trigger] pairs[i]).1 is Array,
        shortest_list(pairs) matches Some(m) ==> {
            &&& forall|i: int| 0 <= i < pairs.len() && (#[trigger] pairs[i]).1 is Array ==> m <= pairs[i].1->Array_0.len()
            &&& exists|i: int| 0 <= i < pairs.len() && (#[trigger] pairs[i]).1 is Array && m == pairs[i].1->Array_0.len()
        },
    decreases pairs.len(),
{
    if pairs.len() > 0 {
        let rest = pairs.drop_last();
        lemma_shortest_list_bounds(rest);
        let n = pairs.len() - 1;
        assert forall|i: int| 0 <= i < rest.len() implies #[trigger] rest[i] == pairs[i] by {}
        assert(pairs.last() == pairs[n]);
        if exists|i: int| 0 <= i < rest.len() && (#[trigger] rest[i]).1 is Array {
            let w = choose|i: int| 0 <= i < rest.len() && (#[trigger] rest[i]).1 is Array;
            assert(pairs[w] == rest[w]);
        }
        if let Some(m) = shortest_list(pairs) {
            assert forall|i: int| 0 <= i < pairs.len() && (#[trigger] pairs[i]).1 is Array implies m <= pairs[i].1->Array_0.len() by {
                if i < n {
                    assert(rest[i].1 is Array);
                }
            }
            match shortest_list(rest) {
                Some(m0) => {
                    let w = choose|i: int| 0 <= i < rest.len() && (#[trigger] rest[i]).1 is Array && m0 == rest[i].1->Array_0.len();
                    assert(pairs[w] == rest[w]);
                    if m == m0 {
                        assert(pairs[w].1 is Array && m == pairs[w].1->Array_0.len());
                    } else {
                        assert(pairs[n].1 is Array && m == pairs[n].1->Array_0.len());
                    }
                },
                None => {
                    assert(pairs[n].1 is Array && m == pairs[n].1->Array_0.len());
                },
            }
        }
        if exists|i: int| 0 <= i < pairs.len() && (#[trigger] pairs[i]).1 is Array {
            let w = choose|i: int| 0 <= i < pairs.len() && (#[trigger] pairs[i]).1 is Array;
            if w < n {
                assert(rest[w] == pairs[w]);
            }
        }
    }
}

/// An object node with some linked list makes as many objects as its
/// shortest linked list is long: no more than any linked list holds, and as
/// many as one of them holds.
pub proof fn lemma_listed_inputs_make_shortest_count(g: GraphModel, id: NodeId)
    requires
        exists|i: int| 0 <= i < linked_inputs(g, id).len() && (#[trigger] linked_inputs(g, id)[i]).1 is Array,
    ensures
        forall|i: int| 0 <= i < linked_inputs(g, id).len() && (#[trigger] linked_inputs(g, id)[i]).1 is Array
            ==> instances(g, id).len() <= linked_inputs(g, id)[i].1->Array_0.len(),
        exists|i: int| 0 <= i < linked_inputs(g, id).len() && (#[trigger] linked_inputs(g, id)[i]).1 is Array
            && instances(g, id).len() == linked_inputs(g, id)[i].1->Array_0.len(),
{
    lemma_shortest_list_bounds(linked_inputs(g, id));
}

} // verus!
