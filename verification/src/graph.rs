//! The graph: nodes, links between their ports, and the dataflow over them.
use vstd::prelude::*;
use crate::fields::Fields;
use crate::ops::{Input, Spec};
use crate::value::{Json, Value, answers_of, json_of, json_of_entries, json_of_seq, lace, laced, lemma_laced_weaken};

verus! {

pub type NodeId = u32;

/// What the graph needs from the application.
pub trait Host {
    /// Makes node `node` own `instances.len()` objects of `kind`, writes each
    /// instance's linked fields, and returns every instance's readable fields.
    fn objects(
        &mut self,
        node: NodeId,
        kind: &str,
        instances: &[Vec<(String, Value)>],
    ) -> Vec<Vec<(String, Value)>>;

    /// Evaluates one call of the operation `op` on `args`, one value per input,
    /// giving one value per output.
    fn call(&self, op: &Spec, args: &[Value]) -> Vec<Value>;
}

/// A named field of a node.
#[derive(Clone, Debug, Hash)]
pub struct Port {
    pub node: NodeId,
    pub field: String,
}

impl PartialEq for Port {
    fn eq(&self, other: &Self) -> (r: bool) {
        self.node == other.node && self.field == other.field
    }
}

impl vstd::std_specs::cmp::PartialEqSpecImpl for Port {
    open spec fn obeys_eq_spec() -> bool {
        true
    }

    open spec fn eq_spec(&self, other: &Self) -> bool {
        same_port(*self, *other)
    }
}

impl Eq for Port {
}

/// Two ports name the same field of the same node.
pub open spec fn same_port(a: Port, b: Port) -> bool {
    a.node == b.node && a.field@ == b.field@
}

/// A link from an output port to an input port.
#[derive(Clone, Debug)]
pub struct Link {
    pub from: Port,
    pub to: Port,
}

/// What a node is.
#[derive(Clone, Debug)]
pub enum Kind {
    /// A library operation.
    Op(Spec),
    /// A host object type, e.g. `"Line"`.
    Object(String),
}

#[derive(Clone, Debug)]
pub struct Node {
    pub id: NodeId,
    pub kind: Kind,
    /// Values of unlinked op inputs.
    pub params: Fields,
    /// Results of the last evaluation.
    pub outputs: Fields,
}

#[derive(Clone, Debug)]
pub struct Graph {
    pub nodes: Vec<Node>,
    pub links: Vec<Link>,
    next_id: NodeId,
}

/// The model of a graph: its nodes, its links, and the last id it issued.
pub struct GraphModel {
    pub nodes: Seq<Node>,
    pub links: Seq<Link>,
    pub last_id: NodeId,
}

impl Default for Graph {
    /// A graph with no nodes and no links.
    fn default() -> (r: Self)
        ensures
            r@.nodes == Seq::<Node>::empty(),
            r@.links == Seq::<Link>::empty(),
            r@.last_id == 0,
    {
        Graph { nodes: Vec::new(), links: Vec::new(), next_id: 0 }
    }
}

impl View for Graph {
    type V = GraphModel;

    closed spec fn view(&self) -> GraphModel {
        GraphModel { nodes: self.nodes@, links: self.links@, last_id: self.next_id }
    }
}

/// The parameters a node of an operation starts with: each input's default,
/// a later input of the same name taking precedence.
pub open spec fn defaults(inputs: Seq<Input>) -> Map<Seq<char>, Json>
    decreases inputs.len(),
{
    if inputs.len() == 0 {
        Map::empty()
    } else {
        defaults(inputs.drop_last()).insert(inputs.last().name@, inputs.last().default@)
    }
}

/// The parameters a node of kind `kind` starts with.
pub open spec fn initial_params(kind: Kind) -> Map<Seq<char>, Json> {
    match kind {
        Kind::Op(spec) => defaults(spec.inputs@),
        Kind::Object(_) => Map::empty(),
    }
}

/// The first node with id `id`, if any.
pub open spec fn first_node(nodes: Seq<Node>, id: NodeId) -> Option<int> {
    if exists|i: int| 0 <= i < nodes.len() && #[trigger] nodes[i].id == id && forall|j: int| 0 <= j < i ==> nodes[j].id != id {
        Some(choose|i: int| 0 <= i < nodes.len() && #[trigger] nodes[i].id == id && forall|j: int| 0 <= j < i ==> nodes[j].id != id)
    } else {
        None
    }
}

/// The first link into `port`, if any.
pub open spec fn first_link_into(links: Seq<Link>, port: Port) -> Option<int> {
    if exists|i: int| 0 <= i < links.len() && same_port(#[trigger] links[i].to, port) && forall|j: int| 0 <= j < i ==> !same_port(links[j].to, port) {
        Some(choose|i: int| 0 <= i < links.len() && same_port(#[trigger] links[i].to, port) && forall|j: int| 0 <= j < i ==> !same_port(links[j].to, port))
    } else {
        None
    }
}

/// A node with id `id` and none before it is the first one.
pub proof fn lemma_first_node(nodes: Seq<Node>, id: NodeId, i: int)
    requires
        0 <= i < nodes.len(),
        nodes[i].id == id,
        forall|j: int| 0 <= j < i ==> nodes[j].id != id,
    ensures
        first_node(nodes, id) == Some(i),
{
    let c = choose|c: int| 0 <= c < nodes.len() && #[trigger] nodes[c].id == id && forall|j: int| 0 <= j < c ==> nodes[j].id != id;
    assert(0 <= c < nodes.len() && nodes[c].id == id && forall|j: int| 0 <= j < c ==> nodes[j].id != id);
    if c < i {
        assert(nodes[c].id != id);
    } else if c > i {
        assert(nodes[i].id != id);
    }
}

/// A link into `port` and none before it is the first one.
pub proof fn lemma_first_link_into(links: Seq<Link>, port: Port, i: int)
    requires
        0 <= i < links.len(),
        same_port(links[i].to, port),
        forall|j: int| 0 <= j < i ==> !same_port(links[j].to, port),
    ensures
        first_link_into(links, port) == Some(i),
{
    let c = choose|c: int| 0 <= c < links.len() && same_port(#[trigger] links[c].to, port) && forall|j: int| 0 <= j < c ==> !same_port(links[j].to, port);
    assert(0 <= c < links.len() && same_port(links[c].to, port) && forall|j: int| 0 <= j < c ==> !same_port(links[j].to, port));
    if c < i {
        assert(!same_port(links[c].to, port));
    } else if c > i {
        assert(!same_port(links[i].to, port));
    }
}

/// The value in field `field` of the first node with id `id`: among its
/// outputs when `output`, else among its parameters; `null` when absent.
pub open spec fn field_value(nodes: Seq<Node>, id: NodeId, field: Seq<char>, output: bool) -> Json {
    match first_node(nodes, id) {
        Some(p) => {
            let m = if output { nodes[p].outputs@ } else { nodes[p].params@ };
            if m.contains_key(field) { m[field] } else { Json::Null }
        },
        None => Json::Null,
    }
}

/// The value arriving at an input: its first link's source output, else the
/// node's own parameter; `null` when neither is there.
pub open spec fn arriving(g: GraphModel, port: Port) -> Json {
    match first_link_into(g.links, port) {
        Some(i) => field_value(g.nodes, g.links[i].from.node, g.links[i].from.field@, true),
        None => field_value(g.nodes, port.node, port.field@, false),
    }
}

/// Keeps the links that touch neither end at node `id`.
pub open spec fn untouched(id: NodeId) -> spec_fn(Link) -> bool {
    |l: Link| l.from.node != id && l.to.node != id
}

/// Keeps the links that do not end at `port`.
pub open spec fn not_into(port: Port) -> spec_fn(Link) -> bool {
    |l: Link| !same_port(l.to, port)
}

/// Some link reaches node `id` from a node still in `pending`.
pub open spec fn blocked(links: Seq<Link>, pending: Seq<NodeId>, id: NodeId) -> bool {
    exists|i: int| 0 <= i < links.len() && #[trigger] links[i].to.node == id && pending.contains(links[i].from.node)
}

/// Keeps the nodes that no link reaches from a node in `pending`.
pub open spec fn unblocked(links: Seq<Link>, pending: Seq<NodeId>) -> spec_fn(NodeId) -> bool {
    |id: NodeId| !blocked(links, pending, id)
}

/// Keeps the nodes that are not in `r`.
pub open spec fn outside(r: Seq<NodeId>) -> spec_fn(NodeId) -> bool {
    |id: NodeId| !r.contains(id)
}

/// The nodes of `pending` that are ready: no link reaches them from a node
/// still pending.
pub open spec fn ready(links: Seq<Link>, pending: Seq<NodeId>) -> Seq<NodeId> {
    pending.filter(unblocked(links, pending))
}

/// A filter that refuses some item is shorter than what it filters.
pub proof fn lemma_filter_drops(s: Seq<NodeId>, p: spec_fn(NodeId) -> bool, i: int)
    requires
        0 <= i < s.len(),
        !p(s[i]),
    ensures
        s.filter(p).len() < s.len(),
    decreases s.len(),
{
    reveal(Seq::filter);
    s.drop_last().lemma_filter_len(p);
    if i < s.len() - 1 {
        lemma_filter_drops(s.drop_last(), p, i);
    }
}

/// A round that finds some node ready leaves fewer nodes pending, and
/// `layered` is that round followed by the rounds of the rest.
pub proof fn lemma_round_shrinks(links: Seq<Link>, pending: Seq<NodeId>)
    requires
        ready(links, pending).len() > 0,
    ensures
        pending.filter(outside(ready(links, pending))).len() < pending.len(),
{
    broadcast use vstd::seq_lib::group_filter_ensures;
    let r = ready(links, pending);
    assert(r.contains(r[0]));
    pending.lemma_filter_contains_rev(unblocked(links, pending), r[0]);
    let w = choose|w: int| 0 <= w < pending.len() && pending[w] == r[0];
    lemma_filter_drops(pending, outside(r), w);
}

/// The nodes of `pending` in rounds: first those ready, then, of the rest,
/// those ready once the first round is gone, and so on, until a round finds
/// none ready.
pub open spec fn layered(links: Seq<Link>, pending: Seq<NodeId>) -> Seq<NodeId>
    decreases pending.len(),
{
    let r = ready(links, pending);
    if r.len() == 0 {
        Seq::empty()
    } else {
        proof {
            lemma_round_shrinks(links, pending);
        }
        r + layered(links, pending.filter(outside(r)))
    }
}

/// The ids of `nodes`, in order.
pub open spec fn ids(nodes: Seq<Node>) -> Seq<NodeId> {
    nodes.map_values(|n: Node| n.id)
}

/// Some link leads from a port of node `a` to a port of node `b`.
pub open spec fn edge(links: Seq<Link>, a: NodeId, b: NodeId) -> bool {
    exists|i: int| 0 <= i < links.len() && #[trigger] links[i].from.node == a && links[i].to.node == b
}

/// `p` is a walk along links, node by node.
pub open spec fn is_path(links: Seq<Link>, p: Seq<NodeId>) -> bool {
    &&& p.len() >= 1
    &&& forall|i: int| 0 <= i < p.len() - 1 ==> edge(links, #[trigger] p[i], p[i + 1])
}

/// Data flows from node `a` to node `b` (every node reaches itself).
pub open spec fn reachable(links: Seq<Link>, a: NodeId, b: NodeId) -> bool {
    exists|p: Seq<NodeId>| #[trigger] is_path(links, p) && p[0] == a && p.last() == b
}

/// No link closes a loop.
pub open spec fn acyclic(links: Seq<Link>) -> bool {
    forall|a: NodeId, b: NodeId| #[trigger] edge(links, a, b) ==> !reachable(links, b, a)
}

/// Every node reaches itself.
pub proof fn lemma_reachable_self(links: Seq<Link>, a: NodeId)
    ensures
        reachable(links, a, a),
{
    let p = seq![a];
    assert(is_path(links, p));
}

/// Reachability extends along a link.
pub proof fn lemma_reachable_step(links: Seq<Link>, a: NodeId, x: NodeId, y: NodeId)
    requires
        reachable(links, a, x),
        edge(links, x, y),
    ensures
        reachable(links, a, y),
{
    let p = choose|p: Seq<NodeId>| #[trigger] is_path(links, p) && p[0] == a && p.last() == x;
    let q = p.push(y);
    assert forall|i: int| 0 <= i < q.len() - 1 implies edge(links, #[trigger] q[i], q[i + 1]) by {
        if i < p.len() - 1 {
            assert(q[i] == p[i] && q[i + 1] == p[i + 1]);
        }
    }
    assert(is_path(links, q));
}

/// A set of nodes that holds every successor of its members holds every
/// node on a walk that starts in it.
pub proof fn lemma_closed_walk(links: Seq<Link>, s: Seq<NodeId>, p: Seq<NodeId>, k: int)
    requires
        is_path(links, p),
        s.contains(p[0]),
        forall|x: NodeId, y: NodeId| s.contains(x) && #[trigger] edge(links, x, y) ==> s.contains(y),
        0 <= k < p.len(),
    ensures
        s.contains(p[k]),
    decreases k,
{
    if k > 0 {
        lemma_closed_walk(links, s, p, k - 1);
        assert(edge(links, p[k - 1], p[k]));
    }
}

/// Distinct members of `c` are no more than `c`'s length.
pub proof fn lemma_bounded_distinct(s: Seq<NodeId>, c: Seq<NodeId>)
    requires
        s.no_duplicates(),
        forall|i: int| 0 <= i < s.len() ==> c.contains(#[trigger] s[i]),
    ensures
        s.len() <= c.len(),
{
    s.unique_seq_to_set();
    c.lemma_cardinality_of_set();
    assert(s.to_set().subset_of(c.to_set()));
    vstd::set_lib::lemma_len_subset(s.to_set(), c.to_set());
}

/// Whether `v` holds `x`.
fn contains_id(v: &Vec<NodeId>, x: NodeId) -> (r: bool)
    ensures
        r == v@.contains(x),
{
    let mut i: usize = 0;
    while i < v.len()
        invariant
            i <= v.len(),
            forall|j: int| 0 <= j < i ==> v@[j] != x,
        decreases v.len() - i,
    {
        if v[i] == x {
            return true;
        }
        i += 1;
    }
    false
}

/// Drops, in place, the links touching node `id`, or else the links into
/// `port`; the others stay, in order.
fn drop_links(links: &mut Vec<Link>, id: Option<NodeId>, port: Option<&Port>)
    requires
        id is Some != port is Some,
    ensures
        id matches Some(n) ==> final(links)@ == old(links)@.filter(untouched(n)),
        port matches Some(p) ==> final(links)@ == old(links)@.filter(not_into(*p)),
{
    let ghost old_links = old(links)@;
    let ghost keep = match id {
        Some(n) => untouched(n),
        None => not_into(*port.unwrap()),
    };
    let mut i: usize = 0;
    let mut k: usize = 0;
    let n: usize = links.len();
    while k < n
        invariant
            n == old_links.len(),
            k <= old_links.len(),
            keep == match id {
                Some(n) => untouched(n),
                None => not_into(*port.unwrap()),
            },
            id is Some != port is Some,
            old_links == old(links)@,
            links@ == old_links.take(k as int).filter(keep) + old_links.skip(k as int),
            i == old_links.take(k as int).filter(keep).len(),
        decreases n - k,
    {
        proof {
            assert(old_links.take(k + 1) =~= old_links.take(k as int).push(old_links[k as int]));
            old_links.take(k as int).lemma_filter_push(old_links[k as int], keep);
            assert(links@[i as int] == old_links[k as int]);
        }
        let kept = match id {
            Some(n) => touches_neither(&links[i], n),
            None => !(links[i].to == *port.unwrap()),
        };
        if kept {
            i += 1;
        } else {
            links.remove(i);
        }
        k += 1;
        assert(links@ =~= old_links.take(k as int).filter(keep) + old_links.skip(k as int));
    }
    assert(old_links.take(old_links.len() as int) =~= old_links);
    assert(links@ =~= old_links.filter(keep));
}

/// Whether neither end of `l` is at node `id`.
fn touches_neither(l: &Link, id: NodeId) -> (r: bool)
    ensures
        r == (untouched(id))(*l),
{
    l.from.node != id && l.to.node != id
}

impl Graph {
    /// Adds a node of kind `kind`, with the next id, and returns that id.
    pub fn add(&mut self, kind: Kind) -> (r: NodeId)
        requires
            old(self)@.last_id < u32::MAX,
        ensures
            r == old(self)@.last_id + 1,
            final(self)@.last_id == r,
            final(self)@.links == old(self)@.links,
            final(self)@.nodes.len() == old(self)@.nodes.len() + 1,
            final(self)@.nodes.subrange(0, old(self)@.nodes.len() as int) == old(self)@.nodes,
            final(self)@.nodes.last().id == r,
            final(self)@.nodes.last().kind == kind,
            final(self)@.nodes.last().params@ == initial_params(kind),
            final(self)@.nodes.last().outputs@ == Map::<Seq<char>, Json>::empty(),
    {
        self.next_id = self.next_id + 1;
        let mut params = Fields::new();
        match &kind {
            Kind::Op(spec) => {
                let mut i: usize = 0;
                while i < spec.inputs.len()
                    invariant
                        i <= spec.inputs@.len(),
                        params@ == defaults(spec.inputs@.take(i as int)),
                    decreases spec.inputs@.len() - i,
                {
                    let input = &spec.inputs[i];
                    params.insert(input.name.clone(), input.default.clone());
                    proof {
                        assert(spec.inputs@.take(i + 1).drop_last() =~= spec.inputs@.take(i as int));
                    }
                    i += 1;
                }
                assert(spec.inputs@.take(spec.inputs@.len() as int) =~= spec.inputs@);
            },
            Kind::Object(_) => {},
        }
        let id = self.next_id;
        self.nodes.push(Node { id, kind, params, outputs: Fields::new() });
        assert(self.nodes@.subrange(0, old(self).nodes@.len() as int) =~= old(self).nodes@);
        id
    }

    /// Removes a node and every link touching it.
    pub fn remove(&mut self, id: NodeId) -> (r: Option<Node>)
        ensures
            final(self)@.links == old(self)@.links.filter(untouched(id)),
            final(self)@.last_id == old(self)@.last_id,
            match first_node(old(self)@.nodes, id) {
                Some(p) => r == Some(old(self)@.nodes[p]) && final(self)@.nodes == old(self)@.nodes.remove(p),
                None => r is None && final(self)@.nodes == old(self)@.nodes,
            },
    {
        drop_links(&mut self.links, Some(id), None);
        let mut i: usize = 0;
        while i < self.nodes.len()
            invariant
                self.nodes@ == old(self).nodes@,
                self.links@ == old(self).links@.filter(untouched(id)),
                self.next_id == old(self).next_id,
                i <= self.nodes@.len(),
                forall|j: int| 0 <= j < i ==> self.nodes@[j].id != id,
            decreases self.nodes@.len() - i,
        {
            if self.nodes[i].id == id {
                proof { lemma_first_node(self.nodes@, id, i as int); }
                return Some(self.nodes.remove(i));
            }
            i += 1;
        }
        None
    }

    /// The first node with id `id`.
    pub fn node(&self, id: NodeId) -> (r: Option<&Node>)
        ensures
            match first_node(self@.nodes, id) {
                Some(p) => r == Some(&self@.nodes[p]),
                None => r is None,
            },
    {
        let mut i: usize = 0;
        while i < self.nodes.len()
            invariant
                i <= self.nodes@.len(),
                forall|j: int| 0 <= j < i ==> self.nodes@[j].id != id,
            decreases self.nodes@.len() - i,
        {
            if self.nodes[i].id == id {
                proof { lemma_first_node(self.nodes@, id, i as int); }
                return Some(&self.nodes[i]);
            }
            i += 1;
        }
        None
    }

    /// The first node with id `id`, to change it.
    pub fn node_mut(&mut self, id: NodeId) -> (r: Option<&mut Node>)
        ensures
            final(self)@.links == old(self)@.links,
            final(self)@.last_id == old(self)@.last_id,
            match first_node(old(self)@.nodes, id) {
                Some(p) => r matches Some(n) && *n == old(self)@.nodes[p]
                    && final(self)@.nodes == old(self)@.nodes.update(p, *final(n)),
                None => r is None && final(self)@.nodes == old(self)@.nodes,
            },
    {
        let mut i: usize = 0;
        while i < self.nodes.len()
            invariant
                self.nodes@ == old(self).nodes@,
                self.links@ == old(self).links@,
                self.next_id == old(self).next_id,
                i <= self.nodes@.len(),
                forall|j: int| 0 <= j < i ==> self.nodes@[j].id != id,
            decreases self.nodes@.len() - i,
        {
            if self.nodes[i].id == id {
                proof { lemma_first_node(self.nodes@, id, i as int); }
                return Some(&mut self.nodes[i]);
            }
            i += 1;
        }
        None
    }

    /// The value in a field of the first node with id `id`; `null` when absent.
    fn field(&self, id: NodeId, field: &String, output: bool) -> (r: Value)
        ensures
            r@ == field_value(self@.nodes, id, field@, output),
    {
        match self.node(id) {
            Some(node) => {
                let fields = if output { &node.outputs } else { &node.params };
                match fields.get(field.as_str()) {
                    Some(value) => value.clone(),
                    None => Value::Null,
                }
            },
            None => Value::Null,
        }
    }

    /// The value arriving at an input: its link's source output, else the
    /// node's own parameter.
    pub fn input(&self, port: &Port) -> (r: Value)
        ensures
            r@ == arriving(self@, *port),
    {
        let mut i: usize = 0;
        while i < self.links.len()
            invariant
                i <= self.links@.len(),
                forall|j: int| 0 <= j < i ==> !same_port(self.links@[j].to, *port),
            decreases self.links@.len() - i,
        {
            if self.links[i].to == *port {
                proof { lemma_first_link_into(self.links@, *port, i as int); }
                let from = &self.links[i].from;
                return self.field(from.node, &from.field, true);
            }
            i += 1;
        }
        self.field(port.node, &port.field, false)
    }

    /// Links an output to an input, replacing the input's previous link.
    /// Refuses a link that would close a loop.
    pub fn connect(&mut self, from: Port, to: Port) -> (r: bool)
        ensures
            r == !(from.node == to.node || reachable(old(self)@.links, to.node, from.node)),
            r ==> final(self)@.links == old(self)@.links.filter(not_into(to)).push(Link { from, to }),
            !r ==> final(self)@.links == old(self)@.links,
            final(self)@.nodes == old(self)@.nodes,
            final(self)@.last_id == old(self)@.last_id,
    {
        if from.node == to.node || self.reaches(to.node, from.node) {
            return false;
        }
        drop_links(&mut self.links, None, Some(&to));
        self.links.push(Link { from, to });
        true
    }

    /// Removes and returns the first link into `to`.
    pub fn disconnect(&mut self, to: &Port) -> (r: Option<Link>)
        ensures
            final(self)@.nodes == old(self)@.nodes,
            final(self)@.last_id == old(self)@.last_id,
            match first_link_into(old(self)@.links, *to) {
                Some(i) => r == Some(old(self)@.links[i]) && final(self)@.links == old(self)@.links.remove(i),
                None => r is None && final(self)@.links == old(self)@.links,
            },
    {
        let mut i: usize = 0;
        while i < self.links.len()
            invariant
                self.links@ == old(self).links@,
                self.nodes@ == old(self).nodes@,
                self.next_id == old(self).next_id,
                i <= self.links@.len(),
                forall|j: int| 0 <= j < i ==> !same_port(self.links@[j].to, *to),
            decreases self.links@.len() - i,
        {
            if self.links[i].to == *to {
                proof { lemma_first_link_into(self.links@, *to, i as int); }
                return Some(self.links.remove(i));
            }
            i += 1;
        }
        None
    }

    /// Whether some link ends at `to`.
    pub fn is_linked(&self, to: &Port) -> (r: bool)
        ensures
            r == exists|i: int| 0 <= i < self@.links.len() && same_port(#[trigger] self@.links[i].to, *to),
    {
        let mut i: usize = 0;
        while i < self.links.len()
            invariant
                i <= self.links@.len(),
                forall|j: int| 0 <= j < i ==> !same_port(self.links@[j].to, *to),
            decreases self.links@.len() - i,
        {
            if self.links[i].to == *to {
                assert(same_port(self@.links[i as int].to, *to));
                return true;
            }
            i += 1;
        }
        false
    }
    /// True when data flows from `from` to `to`.
    pub fn reaches(&self, from: NodeId, to: NodeId) -> (r: bool)
        ensures
            r == reachable(self@.links, from, to),
    {
        let ghost links = self.links@;
        let ghost cands: Seq<NodeId> = seq![from] + links.map_values(|l: Link| l.to.node);
        let mut stack: Vec<NodeId> = Vec::new();
        stack.push(from);
        let mut seen: Vec<NodeId> = Vec::new();
        proof {
            lemma_reachable_self(links, from);
            assert(cands[0] == from);
        }
        loop
            invariant
                links == self.links@,
                cands == seq![from] + links.map_values(|l: Link| l.to.node),
                forall|i: int| 0 <= i < stack@.len() ==> reachable(links, from, #[trigger] stack@[i]) && cands.contains(stack@[i]),
                forall|i: int| 0 <= i < seen@.len() ==> reachable(links, from, #[trigger] seen@[i]) && cands.contains(seen@[i]),
                seen@.no_duplicates(),
                seen@.len() <= cands.len(),
                !seen@.contains(to),
                seen@.contains(from) || stack@.contains(from),
                forall|x: NodeId, y: NodeId|
                    seen@.contains(x) && #[trigger] edge(links, x, y) ==> seen@.contains(y) || stack@.contains(y),
            decreases cands.len() - seen@.len(), stack@.len(),
        {
            let ghost pre_stack = stack@;
            let ghost pre_seen = seen@;
            let popped = stack.pop();
            proof {
                if pre_stack.len() > 0 {
                    assert forall|y: NodeId| pre_stack.contains(y) implies y == pre_stack.last() || stack@.contains(y) by {
                        let w = choose|w: int| 0 <= w < pre_stack.len() && pre_stack[w] == y;
                        if w < pre_stack.len() - 1 {
                            assert(stack@[w] == y);
                        }
                    }
                }
            }
            match popped {
                None => {
                    proof {
                        if reachable(links, from, to) {
                            let p = choose|p: Seq<NodeId>| #[trigger] is_path(links, p) && p[0] == from && p.last() == to;
                            lemma_closed_walk(links, seen@, p, p.len() - 1);
                        }
                    }
                    return false;
                },
                Some(id) => {
                    if id == to {
                        return true;
                    }
                    if !contains_id(&seen, id) {
                        seen.push(id);
                        proof {
                            assert forall|y: NodeId| pre_seen.contains(y) implies seen@.contains(y) by {
                                let w = choose|w: int| 0 <= w < pre_seen.len() && pre_seen[w] == y;
                                assert(seen@[w] == y);
                            }
                            assert(seen@[seen@.len() - 1] == id);
                            assert forall|i: int| 0 <= i < seen@.len() implies cands.contains(#[trigger] seen@[i]) by {}
                            lemma_bounded_distinct(seen@, cands);
                        }
                        let ghost base = stack@;
                        let mut i: usize = 0;
                        while i < self.links.len()
                            invariant
                                links == self.links@,
                                cands == seq![from] + links.map_values(|l: Link| l.to.node),
                                reachable(links, from, id),
                                i <= links.len(),
                                stack@.len() >= base.len(),
                                stack@.subrange(0, base.len() as int) == base,
                                forall|j: int| 0 <= j < stack@.len() ==> reachable(links, from, #[trigger] stack@[j]) && cands.contains(stack@[j]),
                                forall|j: int| 0 <= j < i && #[trigger] links[j].from.node == id ==> stack@.contains(links[j].to.node),
                            decreases links.len() - i,
                        {
                            if self.links[i].from.node == id {
                                let next = self.links[i].to.node;
                                proof {
                                    assert(edge(links, id, next));
                                    lemma_reachable_step(links, from, id, next);
                                    assert(cands[i + 1] == next);
                                }
                                let ghost before = stack@;
                                stack.push(next);
                                proof {
                                    assert forall|j: int| 0 <= j < i && #[trigger] links[j].from.node == id implies stack@.contains(links[j].to.node) by {
                                        let w = choose|w: int| 0 <= w < before.len() && before[w] == links[j].to.node;
                                        assert(stack@[w] == before[w]);
                                    }
                                    assert(stack@[stack@.len() - 1] == next);
                                    assert(stack@.subrange(0, base.len() as int) =~= base);
                                }
                            }
                            i += 1;
                        }
                        proof {
                            assert forall|y: NodeId| base.contains(y) implies stack@.contains(y) by {
                                let w = choose|w: int| 0 <= w < base.len() && base[w] == y;
                                assert(stack@.subrange(0, base.len() as int)[w] == stack@[w]);
                            }
                            assert forall|x: NodeId, y: NodeId| seen@.contains(x) && #[trigger] edge(links, x, y) implies seen@.contains(y) || stack@.contains(y) by {
                                if x == id {
                                    let j = choose|j: int| 0 <= j < links.len() && #[trigger] links[j].from.node == x && links[j].to.node == y;
                                } else {
                                    assert(pre_seen.contains(x));
                                    if !pre_seen.contains(y) {
                                        assert(pre_stack.contains(y));
                                        if y != id {
                                            assert(base.contains(y));
                                        }
                                    }
                                }
                            }
                            if !pre_seen.contains(from) && from != id {
                                assert(base.contains(from));
                            }
                        }
                    } else {
                        proof {
                            assert forall|x: NodeId, y: NodeId| seen@.contains(x) && #[trigger] edge(links, x, y) implies seen@.contains(y) || stack@.contains(y) by {
                                if !seen@.contains(y) {
                                    assert(pre_stack.contains(y));
                                }
                            }
                        }
                    }
                },
            }
        }
    }
}

/// The ids in `v` that are not in `drop`, in order.
fn ids_outside(v: &Vec<NodeId>, drop: &Vec<NodeId>) -> (r: Vec<NodeId>)
    ensures
        r@ == v@.filter(outside(drop@)),
{
    let mut r: Vec<NodeId> = Vec::new();
    let mut i: usize = 0;
    while i < v.len()
        invariant
            i <= v@.len(),
            r@ == v@.take(i as int).filter(outside(drop@)),
        decreases v@.len() - i,
    {
        proof {
            assert(v@.take(i + 1) =~= v@.take(i as int).push(v@[i as int]));
            v@.take(i as int).lemma_filter_push(v@[i as int], outside(drop@));
        }
        if !contains_id(drop, v[i]) {
            r.push(v[i]);
        }
        i += 1;
    }
    assert(v@.take(v@.len() as int) =~= v@);
    r
}

impl Graph {
    /// Whether some link reaches `id` from a node in `pending`.
    fn is_blocked(&self, pending: &Vec<NodeId>, id: NodeId) -> (r: bool)
        ensures
            r == blocked(self@.links, pending@, id),
    {
        let mut i: usize = 0;
        while i < self.links.len()
            invariant
                i <= self.links@.len(),
                forall|j: int| 0 <= j < i ==> !(#[trigger] self.links@[j].to.node == id && pending@.contains(self.links@[j].from.node)),
            decreases self.links@.len() - i,
        {
            if self.links[i].to.node == id && contains_id(pending, self.links[i].from.node) {
                assert(self@.links[i as int].to.node == id);
                return true;
            }
            i += 1;
        }
        false
    }

    /// The nodes of `pending` that no link reaches from a node in `pending`.
    fn ready(&self, pending: &Vec<NodeId>) -> (r: Vec<NodeId>)
        ensures
            r@ == ready(self@.links, pending@),
    {
        let ghost keep = unblocked(self@.links, pending@);
        let mut r: Vec<NodeId> = Vec::new();
        let mut i: usize = 0;
        while i < pending.len()
            invariant
                keep == unblocked(self@.links, pending@),
                i <= pending@.len(),
                r@ == pending@.take(i as int).filter(keep),
            decreases pending@.len() - i,
        {
            proof {
                assert(pending@.take(i + 1) =~= pending@.take(i as int).push(pending@[i as int]));
                pending@.take(i as int).lemma_filter_push(pending@[i as int], keep);
            }
            let id = pending[i];
            if !self.is_blocked(pending, id) {
                r.push(id);
            }
            i += 1;
        }
        assert(pending@.take(pending@.len() as int) =~= pending@);
        r
    }

    /// Nodes ordered so that every link's source precedes its target.
    pub fn order(&self) -> (r: Vec<NodeId>)
        ensures
            r@ == layered(self@.links, ids(self@.nodes)),
    {
        let ghost links = self@.links;
        let mut pending: Vec<NodeId> = Vec::new();
        let mut i: usize = 0;
        while i < self.nodes.len()
            invariant
                i <= self@.nodes.len(),
                pending@ == ids(self@.nodes).take(i as int),
            decreases self@.nodes.len() - i,
        {
            pending.push(self.nodes[i].id);
            assert(pending@ =~= ids(self@.nodes).take(i + 1));
            i += 1;
        }
        assert(pending@ =~= ids(self@.nodes));
        let mut order: Vec<NodeId> = Vec::new();
        assert(order@ + layered(links, pending@) =~= layered(links, ids(self@.nodes)));
        while pending.len() > 0
            invariant
                links == self@.links,
                order@ + layered(links, pending@) == layered(links, ids(self@.nodes)),
            ensures
                order@ == layered(links, ids(self@.nodes)),
            decreases pending@.len(),
        {
            let mut now = self.ready(&pending);
            if now.len() == 0 {
                assert(order@ =~= order@ + layered(links, pending@));
                break;
            }
            let rest = ids_outside(&pending, &now);
            proof {
                lemma_round_shrinks(links, pending@);
            }
            let ghost before = order@;
            order.append(&mut now);
            assert(order@ + layered(links, rest@) =~= before + layered(links, pending@));
            pending = rest;
        }
        order
    }
}

} // verus!

verus! {

/// Output `names[i]` set to `values[i]` for the first `n` pairs, a later
/// name taking precedence.
pub open spec fn named(names: Seq<String>, values: Seq<Json>, n: nat) -> Map<Seq<char>, Json>
    decreases n,
{
    if n == 0 {
        Map::empty()
    } else {
        named(names, values, (n - 1) as nat).insert(names[n - 1]@, values[n - 1])
    }
}

/// The map of a listing of pairs, a later name taking precedence.
pub open spec fn pairs_map(pairs: Seq<(Seq<char>, Json)>) -> Map<Seq<char>, Json>
    decreases pairs.len(),
{
    if pairs.len() == 0 {
        Map::empty()
    } else {
        pairs_map(pairs.drop_last()).insert(pairs.last().0, pairs.last().1)
    }
}

/// `m` with `pair`'s value appended to the list held by its name.
pub open spec fn push_one(m: Map<Seq<char>, Json>, pair: (Seq<char>, Json)) -> Map<Seq<char>, Json> {
    if m.contains_key(pair.0) {
        match m[pair.0] {
            Json::Array(items) => m.insert(pair.0, Json::Array(items.push(pair.1))),
            _ => m,
        }
    } else {
        m.insert(pair.0, Json::Array(seq![pair.1]))
    }
}

/// `m` with each of `pairs` appended in turn.
pub open spec fn gather(m: Map<Seq<char>, Json>, pairs: Seq<(Seq<char>, Json)>) -> Map<Seq<char>, Json>
    decreases pairs.len(),
{
    if pairs.len() == 0 {
        m
    } else {
        push_one(gather(m, pairs.drop_last()), pairs.last())
    }
}

/// Every instance's fields appended in turn, each name gathering a list.
pub open spec fn gather_all(results: Seq<Seq<(Seq<char>, Json)>>) -> Map<Seq<char>, Json>
    decreases results.len(),
{
    if results.len() == 0 {
        Map::empty()
    } else {
        gather(gather_all(results.drop_last()), results.last())
    }
}

/// The outputs of an object node from what the host read back: one
/// instance's fields as they are, several instances' fields as lists.
pub open spec fn collected(results: Seq<Seq<(Seq<char>, Json)>>) -> Map<Seq<char>, Json> {
    if results.len() == 1 {
        pairs_map(results[0])
    } else {
        gather_all(results)
    }
}

/// The model of what the host reads back.
pub open spec fn results_model(results: Seq<Vec<(String, Value)>>) -> Seq<Seq<(Seq<char>, Json)>> {
    results.map_values(|r: Vec<(String, Value)>| json_of_entries(r@))
}

/// The outputs of an object node from what the host read back.
pub fn object_outputs(results: Vec<Vec<(String, Value)>>) -> (r: Fields)
    ensures
        r@ == collected(results_model(results@)),
{
    let ghost model = results_model(results@);
    let mut outputs = Fields::new();
    if results.len() == 1 {
        let first = &results[0];
        let mut i: usize = 0;
        while i < first.len()
            invariant
                model == results_model(results@),
                results@.len() == 1,
                *first == results@[0],
                i <= first@.len(),
                outputs@ == pairs_map(json_of_entries(first@).take(i as int)),
            decreases first@.len() - i,
        {
            let pair = &first[i];
            outputs.insert(pair.0.clone(), pair.1.clone());
            assert(json_of_entries(first@).take(i + 1).drop_last() =~= json_of_entries(first@).take(i as int));
            i += 1;
        }
        assert(json_of_entries(first@).take(first@.len() as int) =~= json_of_entries(first@));
        assert(model[0] == json_of_entries(first@));
        return outputs;
    }
    let mut k: usize = 0;
    while k < results.len()
        invariant
            model == results_model(results@),
            results@.len() != 1,
            k <= results@.len(),
            outputs@ == gather_all(model.take(k as int)),
        decreases results@.len() - k,
    {
        let instance = &results[k];
        let ghost before = outputs@;
        let mut i: usize = 0;
        while i < instance.len()
            invariant
                *instance == results@[k as int],
                i <= instance@.len(),
                outputs@ == gather(before, json_of_entries(instance@).take(i as int)),
            decreases instance@.len() - i,
        {
            let pair = &instance[i];
            outputs.push_item(pair.0.clone(), pair.1.clone());
            assert(json_of_entries(instance@).take(i + 1).drop_last() =~= json_of_entries(instance@).take(i as int));
            i += 1;
        }
        assert(json_of_entries(instance@).take(instance@.len() as int) =~= json_of_entries(instance@));
        assert(model.take(k + 1).drop_last() =~= model.take(k as int));
        k += 1;
    }
    assert(model.take(results@.len() as int) =~= model);
    outputs
}

/// The outputs of an operation node from its laced values.
pub fn op_outputs(names: &Vec<String>, values: Vec<Value>) -> (r: Fields)
    ensures
        r@ == named(names@, json_of_seq(values@), if names@.len() < values@.len() { names@.len() } else { values@.len() }),
{
    let n: usize = if names.len() < values.len() { names.len() } else { values.len() };
    let mut outputs = Fields::new();
    let mut i: usize = 0;
    while i < n
        invariant
            n <= names@.len(),
            n <= values@.len(),
            i <= n,
            outputs@ == named(names@, json_of_seq(values@), i as nat),
        decreases n - i,
    {
        outputs.insert(names[i].clone(), values[i].clone());
        i += 1;
    }
    outputs
}

} // verus!

verus! {

/// Keeps the links into node `id`.
pub open spec fn into_node(id: NodeId) -> spec_fn(Link) -> bool {
    |l: Link| l.to.node == id
}

/// The linked inputs of node `id`: each link's target field and the value
/// arriving there, in link order.
pub open spec fn linked_inputs(g: GraphModel, id: NodeId) -> Seq<(Seq<char>, Json)> {
    g.links.filter(into_node(id)).map_values(|l: Link| (l.to.field@, arriving(g, l.to)))
}

/// The length of the shortest list among `pairs`' values, if any is a list.
pub open spec fn shortest_list(pairs: Seq<(Seq<char>, Json)>) -> Option<nat>
    decreases pairs.len(),
{
    if pairs.len() == 0 {
        None
    } else {
        let rest = shortest_list(pairs.drop_last());
        match pairs.last().1 {
            Json::Array(items) => match rest {
                Some(m) => Some(if m < items.len() { m } else { items.len() }),
                None => Some(items.len()),
            },
            _ => rest,
        }
    }
}

/// How many objects a node makes: one per element of the shortest linked
/// list (none for an empty one), and one when no list is linked.
pub open spec fn instance_count(pairs: Seq<(Seq<char>, Json)>) -> nat {
    match shortest_list(pairs) {
        Some(m) => m,
        None => 1,
    }
}

/// The fields written to object `k`: element `k` of each linked list (a list
/// without one gives none), every other value whole.
pub open spec fn instance(pairs: Seq<(Seq<char>, Json)>, k: int) -> Seq<(Seq<char>, Json)>
    decreases pairs.len(),
{
    if pairs.len() == 0 {
        Seq::empty()
    } else {
        let rest = instance(pairs.drop_last(), k);
        match pairs.last().1 {
            Json::Array(items) => if k < items.len() { rest.push((pairs.last().0, items[k])) } else { rest },
            _ => rest.push(pairs.last()),
        }
    }
}

/// What node `id` hands the host: one field listing per object.
pub open spec fn instances(g: GraphModel, id: NodeId) -> Seq<Seq<(Seq<char>, Json)>> {
    let pairs = linked_inputs(g, id);
    Seq::new(instance_count(pairs), |k: int| instance(pairs, k))
}

impl Graph {
    /// The linked inputs of node `id`, with the values arriving there.
    fn linked(&self, id: NodeId) -> (r: Vec<(String, Value)>)
        ensures
            json_of_entries(r@) == linked_inputs(self@, id),
    {
        let ghost links = self@.links;
        let mut r: Vec<(String, Value)> = Vec::new();
        let mut i: usize = 0;
        while i < self.links.len()
            invariant
                links == self@.links,
                i <= links.len(),
                json_of_entries(r@) == links.take(i as int).filter(into_node(id)).map_values(
                    |l: Link| (l.to.field@, arriving(self@, l.to)),
                ),
            decreases links.len() - i,
        {
            proof {
                assert(links.take(i + 1) =~= links.take(i as int).push(links[i as int]));
                links.take(i as int).lemma_filter_push(links[i as int], into_node(id));
            }
            let link = &self.links[i];
            if link.to.node == id {
                let value = self.input(&link.to);
                let ghost before = r@;
                r.push((link.to.field.clone(), value));
                assert(json_of_entries(r@) =~= json_of_entries(before).push((link.to.field@, value@)));
            }
            i += 1;
        }
        assert(links.take(links.len() as int) =~= links);
        r
    }

    /// What node `id` hands the host: one field listing per object.
    pub fn object_instances(&self, id: NodeId) -> (r: Vec<Vec<(String, Value)>>)
        ensures
            results_model(r@) == instances(self@, id),
    {
        let linked = self.linked(id);
        let ghost pairs = json_of_entries(linked@);
        let mut shortest: Option<usize> = None;
        let mut i: usize = 0;
        while i < linked.len()
            invariant
                pairs == json_of_entries(linked@),
                i <= linked@.len(),
                match shortest {
                    Some(m) => shortest_list(pairs.take(i as int)) == Some(m as nat),
                    None => shortest_list(pairs.take(i as int)) is None,
                },
            decreases linked@.len() - i,
        {
            assert(pairs.take(i + 1).drop_last() =~= pairs.take(i as int));
            assert(pairs.take(i + 1).last() == pairs[i as int]);
            assert(pairs[i as int].1 == json_of(linked@[i as int].1));
            match &linked[i].1 {
                Value::Array(items) => {
                    let len = items.len();
                    assert(pairs[i as int].1 == Json::Array(json_of_seq(items@)));
                    shortest = match shortest {
                        Some(m) => Some(if m < len { m } else { len }),
                        None => Some(len),
                    };
                },
                _ => {},
            }
            i += 1;
        }
        assert(pairs.take(linked@.len() as int) =~= pairs);
        let count: usize = match shortest {
            Some(m) => m,
            None => 1,
        };
        let mut r: Vec<Vec<(String, Value)>> = Vec::new();
        let mut k: usize = 0;
        while k < count
            invariant
                pairs == json_of_entries(linked@),
                count == instance_count(pairs),
                k <= count,
                results_model(r@) == Seq::new(k as nat, |x: int| instance(pairs, x)),
            decreases count - k,
        {
            let mut fields: Vec<(String, Value)> = Vec::new();
            let mut j: usize = 0;
            while j < linked.len()
                invariant
                    pairs == json_of_entries(linked@),
                    j <= linked@.len(),
                    json_of_entries(fields@) == instance(pairs.take(j as int), k as int),
                decreases linked@.len() - j,
            {
                assert(pairs.take(j + 1).drop_last() =~= pairs.take(j as int));
                let pair = &linked[j];
                let ghost before = fields@;
                match &pair.1 {
                    Value::Array(items) => {
                        if k < items.len() {
                            fields.push((pair.0.clone(), items[k].clone()));
                            assert(json_of_entries(fields@) =~= json_of_entries(before).push((pair.0@, json_of(items@[k as int]))));
                        }
                    },
                    other => {
                        fields.push((pair.0.clone(), other.clone()));
                        assert(json_of_entries(fields@) =~= json_of_entries(before).push((pair.0@, json_of(pair.1))));
                    },
                }
                j += 1;
            }
            assert(pairs.take(linked@.len() as int) =~= pairs);
            let ghost before = r@;
            r.push(fields);
            assert(results_model(r@) =~= Seq::new((k + 1) as nat, |x: int| instance(pairs, x))) by {
                assert(results_model(r@) =~= results_model(before).push(json_of_entries(fields@)));
            }
            k += 1;
        }
        r
    }
}

} // verus!

verus! {

/// The values an operation node's inputs receive, in input order.
pub open spec fn op_arguments(g: GraphModel, id: NodeId, spec: Spec) -> Seq<Json> {
    Seq::new(spec.inputs@.len(), |i: int| arriving(g, Port { node: id, field: spec.inputs@[i].name }))
}

/// Which of an operation's inputs run once per element of a list.
pub open spec fn op_scalars(spec: Spec) -> Seq<bool> {
    Seq::new(spec.inputs@.len(), |i: int| !spec.inputs@[i].list)
}

/// The answers the host's `call` may give for operation `op`, as a relation
/// from arguments to results.
pub open spec fn host_answers<H: Host>(op: Spec) -> spec_fn(Seq<Json>, Seq<Json>) -> bool {
    |args: Seq<Json>, answer: Seq<Json>|
        exists|h: &H, a: &[Value], r: Vec<Value>|
            #[trigger] call_ensures(H::call, (h, &op, a), r) && json_of_seq(a@) == args && json_of_seq(r@) == answer
}

/// `results` is what the host's `objects` may read back when node `id` asks
/// it for objects of `kind` with the field listings `asked`.
pub open spec fn host_built<H: Host>(
    id: NodeId,
    kind: Seq<char>,
    asked: Seq<Seq<(Seq<char>, Json)>>,
    results: Seq<Seq<(Seq<char>, Json)>>,
) -> bool {
    exists|h: &mut H, k: &str, i: &[Vec<(String, Value)>], r: Vec<Vec<(String, Value)>>|
        #[trigger] call_ensures(H::objects, (h, id, k, i), r) && k@ == kind && results_model(i@) == asked
            && results_model(r@) == results
}

/// Whether the first node with id `id` is an object node.
pub open spec fn object_at(nodes: Seq<Node>, id: NodeId) -> bool {
    match first_node(nodes, id) {
        Some(p) => nodes[p].kind is Object,
        None => false,
    }
}

/// Keeps the ids whose first node is an object node.
pub open spec fn is_object(nodes: Seq<Node>) -> spec_fn(NodeId) -> bool {
    |x: NodeId| object_at(nodes, x)
}

/// The ids of the object nodes that evaluating in `order` asks the host
/// for, in that order: one `objects` call each.
pub open spec fn object_calls(nodes: Seq<Node>, order: Seq<NodeId>) -> Seq<NodeId> {
    order.filter(is_object(nodes))
}

/// `h` is a host borrowed for one `objects` call that asks for the objects of
/// node `id` of graph `g`: with its id, its kind and its instances.
pub open spec fn asked_objects<H: Host>(h: &mut H, g: GraphModel, id: NodeId) -> bool {
    match first_node(g.nodes, id) {
        Some(p) => exists|k: &str, i: &[Vec<(String, Value)>], r: Vec<Vec<(String, Value)>>|
            #[trigger] call_ensures(H::objects, (h, id, k, i), r) && k@ == g.nodes[p].kind->Object_0@
                && results_model(i@) == instances(g, id),
        None => false,
    }
}

/// The outputs `node` holds after an evaluation in graph `g`: an operation's
/// arguments laced through the host's calls and named by its outputs; an
/// object node's instances handed to the host and what it read back collected.
pub open spec fn evaluated<H: Host>(g: GraphModel, node: Node) -> bool {
    match node.kind {
        Kind::Op(spec) => exists|values: Seq<Json>|
            #[trigger] laced(host_answers::<H>(spec), op_arguments(g, node.id, spec), op_scalars(spec), spec.outputs@.len(), values)
                && values.len() == spec.outputs@.len()
                && node.outputs@ == named(spec.outputs@, values, spec.outputs@.len()),
        Kind::Object(kind) => exists|results: Seq<Seq<(Seq<char>, Json)>>|
            #[trigger] host_built::<H>(node.id, kind@, instances(g, node.id), results) && node.outputs@ == collected(results),
    }
}

/// What `evaluate` makes of graph `before`: links, last id, and each node's
/// id, kind and parameters stay; every node the order schedules holds what
/// its evaluation in the graph `after` gives; every other node keeps its outputs.
pub open spec fn evaluation_of<H: Host>(before: GraphModel, after: GraphModel) -> bool {
    &&& after.links == before.links
    &&& after.last_id == before.last_id
    &&& after.nodes.len() == before.nodes.len()
    &&& forall|i: int| 0 <= i < before.nodes.len() ==> {
        &&& (#[trigger] after.nodes[i]).id == before.nodes[i].id
        &&& after.nodes[i].kind == before.nodes[i].kind
        &&& after.nodes[i].params == before.nodes[i].params
    }
    &&& forall|i: int| 0 <= i < before.nodes.len() ==> if scheduled(before.nodes, layered(before.links, ids(before.nodes)), i) {
        evaluated::<H>(after, #[trigger] after.nodes[i])
    } else {
        after.nodes[i].outputs == before.nodes[i].outputs
    }
}

/// Node `i` is the first node with its id and its id is in `order`.
pub open spec fn scheduled(nodes: Seq<Node>, order: Seq<NodeId>, i: int) -> bool {
    first_node(nodes, nodes[i].id) == Some(i) && order.contains(nodes[i].id)
}

impl Graph {
    /// The values an operation node's inputs receive, and which inputs are scalar.
    pub fn op_args(&self, id: NodeId, spec: &Spec) -> (r: (Vec<Value>, Vec<bool>))
        ensures
            json_of_seq(r.0@) == op_arguments(self@, id, *spec),
            r.1@ == op_scalars(*spec),
    {
        let mut args: Vec<Value> = Vec::new();
        let mut scalar: Vec<bool> = Vec::new();
        let mut i: usize = 0;
        while i < spec.inputs.len()
            invariant
                i <= spec.inputs@.len(),
                json_of_seq(args@) == op_arguments(self@, id, *spec).take(i as int),
                scalar@ == op_scalars(*spec).take(i as int),
            decreases spec.inputs@.len() - i,
        {
            let input = &spec.inputs[i];
            let port = Port { node: id, field: input.name.clone() };
            let value = self.input(&port);
            let ghost before = args@;
            args.push(value);
            scalar.push(!input.list);
            assert(json_of_seq(args@) =~= op_arguments(self@, id, *spec).take(i + 1)) by {
                assert(json_of_seq(args@) =~= json_of_seq(before).push(value@));
            }
            assert(scalar@ =~= op_scalars(*spec).take(i + 1));
            i += 1;
        }
        assert(op_arguments(self@, id, *spec).take(i as int) =~= op_arguments(self@, id, *spec));
        assert(op_scalars(*spec).take(i as int) =~= op_scalars(*spec));
        (args, scalar)
    }

    fn evaluate_op<H: Host>(&self, id: NodeId, spec: &Spec, host: &H) -> (r: Fields)
        ensures
            exists|values: Seq<Json>|
                #[trigger] laced(host_answers::<H>(*spec), op_arguments(self@, id, *spec), op_scalars(*spec), spec.outputs@.len(), values)
                    && values.len() == spec.outputs@.len()
                    && r@ == named(spec.outputs@, values, spec.outputs@.len()),
    {
        let (args, scalar) = self.op_args(id, spec);
        let call = |a: &[Value]| -> (r: Vec<Value>)
            ensures
                call_ensures(H::call, (host, spec, a), r),
        {
            let answer = H::call;
            answer(host, spec, a)
        };
        let values = lace(args.as_slice(), scalar.as_slice(), spec.outputs.len(), &call);
        let ghost model = json_of_seq(values@);
        proof {
            assert forall|x: Seq<Json>, y: Seq<Json>| #[trigger] answers_of(call)(x, y) implies host_answers::<H>(*spec)(x, y) by {
                let (a, res) = choose|a: &[Value], res: Vec<Value>|
                    call_ensures(call, (a,), res) && json_of_seq(a@) == x && json_of_seq(res@) == y;
                assert(call_ensures(H::call, (host, spec, a), res));
            }
            lemma_laced_weaken(answers_of(call), host_answers::<H>(*spec), json_of_seq(args@), scalar@, spec.outputs@.len(), model);
        }
        let outputs = op_outputs(&spec.outputs, values);
        assert(model.len() == spec.outputs@.len());
        outputs
    }

    fn evaluate_object<H: Host>(&self, id: NodeId, kind: &str, host: &mut H) -> (r: Fields)
        ensures
            exists|results: Seq<Seq<(Seq<char>, Json)>>|
                #[trigger] host_built::<H>(id, kind@, instances(self@, id), results) && r@ == collected(results),
            exists|h: &mut H, i: &[Vec<(String, Value)>], res: Vec<Vec<(String, Value)>>|
                *h == *old(host) && *final(h) == *final(host) && #[trigger] call_ensures(H::objects, (h, id, kind, i), res)
                    && results_model(i@) == instances(self@, id) && r@ == collected(results_model(res@)),
    {
        let asked = self.object_instances(id);
        let build = H::objects;
        let results = build(host, id, kind, asked.as_slice());
        let ghost model = results_model(results@);
        assert(host_built::<H>(id, kind@, instances(self@, id), model));
        let outputs = object_outputs(results);
        assert(outputs@ == collected(model));
        outputs
    }

    /// Evaluates the first node with id `id`, replacing its outputs.
    fn evaluate_node<H: Host>(&mut self, id: NodeId, host: &mut H)
        ensures
            final(self)@.links == old(self)@.links,
            final(self)@.last_id == old(self)@.last_id,
            final(self)@.nodes.len() == old(self)@.nodes.len(),
            match first_node(old(self)@.nodes, id) {
                Some(p) => {
                    &&& final(self)@.nodes[p].id == old(self)@.nodes[p].id
                    &&& final(self)@.nodes[p].kind == old(self)@.nodes[p].kind
                    &&& final(self)@.nodes[p].params == old(self)@.nodes[p].params
                    &&& evaluated::<H>(old(self)@, final(self)@.nodes[p])
                    &&& forall|i: int| 0 <= i < old(self)@.nodes.len() && i != p ==> #[trigger] final(self)@.nodes[i] == old(self)@.nodes[i]
                },
                None => final(self)@.nodes == old(self)@.nodes,
            },
            if object_at(old(self)@.nodes, id) {
                exists|h: &mut H| *h == *old(host) && *final(h) == *final(host) && #[trigger] asked_objects::<H>(h, old(self)@, id)
            } else {
                *final(host) == *old(host)
            },
    {
        let ghost g = self@;
        let outputs = match self.node(id) {
            Some(node) => match &node.kind {
                Kind::Op(spec) => {
                    let outputs = self.evaluate_op(id, spec, host);
                    assert(node.kind == Kind::Op(*spec));
                    outputs
                },
                Kind::Object(kind) => {
                    let ghost host_before = *host;
                    let name = kind.as_str();
                    let outputs = self.evaluate_object(id, name, host);
                    assert(node.kind == Kind::Object(*kind));
                    proof {
                        let (h, i, res) = choose|h: &mut H, i: &[Vec<(String, Value)>], res: Vec<Vec<(String, Value)>>|
                            *h == host_before && *final(h) == *host && #[trigger] call_ensures(H::objects, (h, id, name, i), res)
                                && results_model(i@) == instances(g, id) && outputs@ == collected(results_model(res@));
                        assert(asked_objects::<H>(h, g, id));
                        assert(exists|h: &mut H| *h == host_before && *final(h) == *host && #[trigger] asked_objects::<H>(h, g, id));
                    }
                    outputs
                },
            },
            None => {
                return;
            },
        };
        assert(first_node(self@.nodes, id) is Some);
        let ghost p = first_node(self@.nodes, id)->Some_0;
        let ghost fresh = Node { outputs: outputs, ..self@.nodes[p] };
        assert(fresh.id == id);
        assert(evaluated::<H>(g, fresh));
        let ghost before = self@.nodes;
        self.set_outputs(id, outputs);
        assert(self@.nodes == before.update(p, fresh));
        assert(self@.nodes.len() == before.len());
    }

    /// Replaces the outputs of the first node with id `id`.
    fn set_outputs(&mut self, id: NodeId, outputs: Fields)
        ensures
            final(self)@.links == old(self)@.links,
            final(self)@.last_id == old(self)@.last_id,
            match first_node(old(self)@.nodes, id) {
                Some(p) => final(self)@.nodes == old(self)@.nodes.update(p, Node { outputs: outputs, ..old(self)@.nodes[p] }),
                None => final(self)@.nodes == old(self)@.nodes,
            },
    {
        let mut i: usize = 0;
        while i < self.nodes.len()
            invariant
                self.nodes@ == old(self).nodes@,
                self.links@ == old(self).links@,
                self.next_id == old(self).next_id,
                i <= self.nodes@.len(),
                forall|j: int| 0 <= j < i ==> self.nodes@[j].id != id,
            decreases self.nodes@.len() - i,
        {
            if self.nodes[i].id == id {
                proof { lemma_first_node(self.nodes@, id, i as int); }
                self.nodes[i].outputs = outputs;
                return;
            }
            i += 1;
        }
    }

    /// Evaluates every node, upstream first.
    pub fn evaluate<H: Host>(&mut self, host: &mut H)
        ensures
            evaluation_of::<H>(old(self)@, final(self)@),
            ({
                let calls = object_calls(old(self)@.nodes, layered(old(self)@.links, ids(old(self)@.nodes)));
                exists|hs: Seq<&mut H>| {
                    &&& hs.len() == calls.len()
                    &&& hs.len() == 0 ==> *final(host) == *old(host)
                    &&& hs.len() > 0 ==> *hs[0] == *old(host) && *final(hs.last()) == *final(host)
                    &&& forall|k: int| 0 <= k < hs.len() - 1 ==> *final(#[trigger] hs[k]) == *hs[k + 1]
                    &&& forall|k: int| #![trigger hs[k]] 0 <= k < hs.len() ==> asked_objects::<H>(hs[k], final(self)@, calls[k])
                }
            }),
    {
        let order = self.order();
        let ghost start = self@.nodes;
        let mut t: usize = 0;
        assert(order@.take(0) =~= Seq::<NodeId>::empty());
        assert(object_calls(start, order@.take(0)) =~= Seq::<NodeId>::empty());
        assert({
            let hs = Seq::<&mut H>::empty();
            &&& hs.len() == object_calls(start, order@.take(0)).len()
            &&& hs.len() == 0 ==> *host == *old(host)
        });
        while t < order.len()
            invariant
                exists|hs: Seq<&mut H>| {
                    &&& hs.len() == object_calls(start, order@.take(t as int)).len()
                    &&& hs.len() == 0 ==> *host == *old(host)
                    &&& hs.len() > 0 ==> *hs[0] == *old(host) && *final(hs.last()) == *host
                    &&& forall|k: int| 0 <= k < hs.len() - 1 ==> *final(#[trigger] hs[k]) == *hs[k + 1]
                    &&& forall|k: int| #![trigger hs[k]] 0 <= k < hs.len()
                        ==> asked_objects::<H>(hs[k], self@, object_calls(start, order@.take(t as int))[k])
                },
                order@ == layered(old(self)@.links, ids(start)),
                start == old(self)@.nodes,
                t <= order@.len(),
                self@.links == old(self)@.links,
                self@.last_id == old(self)@.last_id,
                self@.nodes.len() == start.len(),
                forall|i: int| 0 <= i < start.len() ==> {
                    &&& (#[trigger] self@.nodes[i]).id == start[i].id
                    &&& self@.nodes[i].kind == start[i].kind
                    &&& self@.nodes[i].params == start[i].params
                },
                forall|i: int| 0 <= i < start.len() ==> if scheduled(start, order@.take(t as int), i) {
                    evaluated::<H>(self@, #[trigger] self@.nodes[i])
                } else {
                    self@.nodes[i].outputs == start[i].outputs
                },
            decreases order@.len() - t,
        {
            let id = order[t];
            let ghost before = self@;
            let ghost host_before = *host;
            proof {
                lemma_first_node_ids(before.nodes, start, id);
            }
            self.evaluate_node(id, host);
            proof {
                lemma_schedule_step::<H>(start, before, self@, order@, t as int, id);
                lemma_asked_frame::<H>(start, before, self@, order@, t as int, id);
                let calls = object_calls(start, order@.take(t as int));
                let calls2 = object_calls(start, order@.take(t + 1));
                assert(order@.take(t + 1) =~= order@.take(t as int).push(id));
                order@.take(t as int).lemma_filter_push(id, is_object(start));
                assert(object_at(before.nodes, id) == object_at(start, id));
                let hs = choose|hs: Seq<&mut H>| {
                    &&& hs.len() == calls.len()
                    &&& hs.len() == 0 ==> host_before == *old(host)
                    &&& hs.len() > 0 ==> *hs[0] == *old(host) && *final(hs.last()) == host_before
                    &&& forall|k: int| 0 <= k < hs.len() - 1 ==> *final(#[trigger] hs[k]) == *hs[k + 1]
                    &&& forall|k: int| #![trigger hs[k]] 0 <= k < hs.len() ==> asked_objects::<H>(hs[k], before, calls[k])
                };
                assert forall|k: int| 0 <= k < calls.len() implies order@.take(t + 1).contains(#[trigger] calls[k]) by {
                    assert(calls.contains(calls[k]));
                    order@.take(t as int).lemma_filter_contains_rev(is_object(start), calls[k]);
                    let w = choose|w: int| 0 <= w < t && #[trigger] order@.take(t as int)[w] == calls[k];
                    assert(order@.take(t + 1)[w] == calls[k]);
                }
                if object_at(start, id) {
                    let h = choose|h: &mut H| *h == host_before && *final(h) == *host && #[trigger] asked_objects::<H>(h, before, id);
                    let hs2 = hs.push(h);
                    assert(calls2 == calls.push(id));
                    assert(order@.take(t + 1)[t as int] == id);
                    assert forall|k: int| 0 <= k < hs2.len() - 1 implies *final(#[trigger] hs2[k]) == *hs2[k + 1] by {
                        assert(hs2[k] == hs[k]);
                        if k + 1 < hs.len() {
                            assert(hs2[k + 1] == hs[k + 1]);
                        }
                    }
                    assert forall|k: int| #![trigger hs2[k]] 0 <= k < hs2.len() implies asked_objects::<H>(hs2[k], self@, calls2[k]) by {
                        if k < hs.len() {
                            assert(hs2[k] == hs[k]);
                            assert(calls2[k] == calls[k]);
                            assert(order@.take(t + 1).contains(calls[k]));
                        } else {
                            assert(order@.take(t + 1).contains(id));
                        }
                    }
                    assert(hs2.len() == calls2.len());
                    assert(*hs2[0] == *old(host));
                    assert(*final(hs2.last()) == *host);
                } else {
                    assert(calls2 == calls);
                    assert forall|k: int| #![trigger hs[k]] 0 <= k < hs.len() implies asked_objects::<H>(hs[k], self@, calls2[k]) by {
                        assert(order@.take(t + 1).contains(calls[k]));
                    }
                }
            }
            t += 1;
        }
        assert(order@.take(order@.len() as int) =~= order@);
    }
}

/// One evaluation step leaves every `objects` call made for a node evaluated
/// so far asking what it asked: the graph changed only where no such node reads.
proof fn lemma_asked_frame<H: Host>(
    start: Seq<Node>,
    before: GraphModel,
    after: GraphModel,
    order: Seq<NodeId>,
    t: int,
    id: NodeId,
)
    requires
        0 <= t < order.len(),
        order[t] == id,
        order == layered(before.links, ids(start)),
        after.links == before.links,
        after.last_id == before.last_id,
        before.nodes.len() == start.len(),
        after.nodes.len() == start.len(),
        forall|i: int| 0 <= i < start.len() ==> {
            &&& (#[trigger] before.nodes[i]).id == start[i].id
            &&& before.nodes[i].kind == start[i].kind
            &&& before.nodes[i].params == start[i].params
        },
        forall|i: int| 0 <= i < start.len() ==> {
            &&& (#[trigger] after.nodes[i]).id == start[i].id
            &&& after.nodes[i].kind == start[i].kind
            &&& after.nodes[i].params == start[i].params
        },
        first_node(before.nodes, id) == first_node(start, id),
        match first_node(before.nodes, id) {
            Some(p) => forall|i: int| 0 <= i < before.nodes.len() && i != p ==> #[trigger] after.nodes[i] == before.nodes[i],
            None => after.nodes == before.nodes,
        },
    ensures
        forall|h: &mut H, y: NodeId|
            order.take(t + 1).contains(y) ==> (#[trigger] asked_objects::<H>(h, after, y) <==> asked_objects::<H>(h, before, y)),
{
    assert forall|h: &mut H, y: NodeId| order.take(t + 1).contains(y)
        implies (#[trigger] asked_objects::<H>(h, after, y) <==> asked_objects::<H>(h, before, y)) by {
        match first_node(before.nodes, id) {
            Some(p) => {
                let s = choose|s: int| 0 <= s < t + 1 && #[trigger] order.take(t + 1)[s] == y;
                assert(order[s] == y);
                assert forall|k: int| 0 <= k < before.links.len() && (#[trigger] before.links[k]).to.node == y
                    implies before.links[k].from.node != id by {
                    if before.links[k].from.node == id {
                        crate::laws::lemma_layered_topological(before.links, ids(start), k, t, s);
                    }
                }
                assert(before.nodes[p].id == id);
                lemma_arrivals_frame::<H>(before, after, id, p, y);
                assert(instances(after, y) == instances(before, y));
                lemma_first_node_ids(before.nodes, after.nodes, y);
                if let Some(q) = first_node(before.nodes, y) {
                    assert(after.nodes[q].kind == before.nodes[q].kind);
                }
            },
            None => {
                assert(after == before);
            },
        }
    }
}

/// Changing only the outputs of node `p`, whose id is `x`, leaves what
/// arrives at node `y` unchanged when no link runs from `x` into `y`.
proof fn lemma_arrivals_frame<H: Host>(g1: GraphModel, g2: GraphModel, x: NodeId, p: int, y: NodeId)
    requires
        g2.links == g1.links,
        g2.nodes.len() == g1.nodes.len(),
        0 <= p < g1.nodes.len(),
        g1.nodes[p].id == x,
        g2.nodes[p].id == x,
        g2.nodes[p].params == g1.nodes[p].params,
        forall|i: int| 0 <= i < g1.nodes.len() && i != p ==> #[trigger] g2.nodes[i] == g1.nodes[i],
        forall|k: int| 0 <= k < g1.links.len() && (#[trigger] g1.links[k]).to.node == y ==> g1.links[k].from.node != x,
    ensures
        forall|n: Node| n.id == y ==> (evaluated::<H>(g2, n) <==> evaluated::<H>(g1, n)),
        instances(g2, y) == instances(g1, y),
{
    assert forall|i: int| 0 <= i < g1.nodes.len() implies g1.nodes[i].id == g2.nodes[i].id by {
        if i != p {
            assert(g2.nodes[i] == g1.nodes[i]);
        }
    }
    assert forall|port: Port| port.node == y implies #[trigger] arriving(g2, port) == arriving(g1, port) by {
        match first_link_into(g1.links, port) {
            Some(k) => {
                let z = g1.links[k].from.node;
                assert(g1.links[k].to.node == y);
                assert(z != x);
                lemma_first_node_ids(g1.nodes, g2.nodes, z);
                if let Some(q) = first_node(g1.nodes, z) {
                    assert(q != p);
                    assert(g2.nodes[q] == g1.nodes[q]);
                }
            },
            None => {
                lemma_first_node_ids(g1.nodes, g2.nodes, port.node);
                if let Some(q) = first_node(g1.nodes, port.node) {
                    if q != p {
                        assert(g2.nodes[q] == g1.nodes[q]);
                    }
                }
            },
        }
    }
    assert forall|spec: Spec| #[trigger] op_arguments(g2, y, spec) == op_arguments(g1, y, spec) by {
        assert(op_arguments(g2, y, spec) =~= op_arguments(g1, y, spec));
    }
    let into = g1.links.filter(into_node(y));
    assert forall|i: int| 0 <= i < into.len() implies (#[trigger] into[i]).to.node == y by {
        g1.links.lemma_filter_pred(into_node(y), i);
    }
    assert(linked_inputs(g2, y) =~= linked_inputs(g1, y));
    assert(instances(g2, y) =~= instances(g1, y));
    assert forall|n: Node| n.id == y implies (evaluated::<H>(g2, n) <==> evaluated::<H>(g1, n)) by {
        if let Kind::Op(spec) = n.kind {
            assert(op_arguments(g2, y, spec) == op_arguments(g1, y, spec));
        }
    }
}

/// One step of the evaluation loop keeps its invariant.
#[verifier::rlimit(40)]
proof fn lemma_schedule_step<H: Host>(
    start: Seq<Node>,
    before: GraphModel,
    after: GraphModel,
    order: Seq<NodeId>,
    t: int,
    id: NodeId,
)
    requires
        0 <= t < order.len(),
        order[t] == id,
        order == layered(before.links, ids(start)),
        after.links == before.links,
        after.last_id == before.last_id,
        before.nodes.len() == start.len(),
        after.nodes.len() == start.len(),
        forall|i: int| 0 <= i < start.len() ==> {
            &&& (#[trigger] before.nodes[i]).id == start[i].id
            &&& before.nodes[i].kind == start[i].kind
            &&& before.nodes[i].params == start[i].params
        },
        forall|i: int| 0 <= i < start.len() ==> if scheduled(start, order.take(t), i) {
            evaluated::<H>(before, #[trigger] before.nodes[i])
        } else {
            before.nodes[i].outputs == start[i].outputs
        },
        first_node(before.nodes, id) == first_node(start, id),
        match first_node(before.nodes, id) {
            Some(p) => {
                &&& after.nodes[p].id == before.nodes[p].id
                &&& after.nodes[p].kind == before.nodes[p].kind
                &&& after.nodes[p].params == before.nodes[p].params
                &&& evaluated::<H>(before, after.nodes[p])
                &&& forall|i: int| 0 <= i < before.nodes.len() && i != p ==> #[trigger] after.nodes[i] == before.nodes[i]
            },
            None => after.nodes == before.nodes,
        },
    ensures
        forall|i: int| 0 <= i < start.len() ==> {
            &&& (#[trigger] after.nodes[i]).id == start[i].id
            &&& after.nodes[i].kind == start[i].kind
            &&& after.nodes[i].params == start[i].params
        },
        forall|i: int| 0 <= i < start.len() ==> if scheduled(start, order.take(t + 1), i) {
            evaluated::<H>(after, #[trigger] after.nodes[i])
        } else {
            after.nodes[i].outputs == start[i].outputs
        },
{
    assert(order.take(t + 1) =~= order.take(t).push(id));
    assert forall|i: int| 0 <= i < start.len() implies (if scheduled(start, order.take(t + 1), i) {
        evaluated::<H>(after, #[trigger] after.nodes[i])
    } else {
        after.nodes[i].outputs == start[i].outputs
    }) by {
        let prefix = order.take(t);
        let longer = order.take(t + 1);
        assert(longer.contains(start[i].id) <==> (prefix.contains(start[i].id) || start[i].id == id)) by {
            if longer.contains(start[i].id) {
                let w = choose|w: int| 0 <= w < longer.len() && #[trigger] longer[w] == start[i].id;
                if w < t {
                    assert(prefix[w] == start[i].id);
                }
            }
            if prefix.contains(start[i].id) {
                let w = choose|w: int| 0 <= w < prefix.len() && #[trigger] prefix[w] == start[i].id;
                assert(longer[w] == start[i].id);
            }
            if start[i].id == id {
                assert(longer[t] == id);
            }
        }
        if scheduled(start, longer, i) {
            let y = start[i].id;
            match first_node(before.nodes, id) {
                Some(p) => {
                    assert forall|k: int| 0 <= k < before.links.len() && (#[trigger] before.links[k]).to.node == y
                        implies before.links[k].from.node != id by {
                        if before.links[k].from.node == id {
                            if y == id {
                                crate::laws::lemma_layered_topological(before.links, ids(start), k, t, t);
                            } else {
                                let s = choose|s: int| 0 <= s < prefix.len() && #[trigger] prefix[s] == y;
                                assert(order[s] == y);
                                crate::laws::lemma_layered_topological(before.links, ids(start), k, t, s);
                            }
                        }
                    }
                    lemma_arrivals_frame::<H>(before, after, id, p, y);
                    if y != id {
                        assert(i != p);
                        assert(after.nodes[i] == before.nodes[i]);
                    }
                },
                None => {
                    assert(after == before);
                },
            }
        }
    }
}

/// Two node listings with the same ids find the same first node.
pub proof fn lemma_first_node_ids(a: Seq<Node>, b: Seq<Node>, id: NodeId)
    requires
        a.len() == b.len(),
        forall|i: int| 0 <= i < a.len() ==> a[i].id == b[i].id,
    ensures
        first_node(a, id) == first_node(b, id),
{
    if exists|i: int| 0 <= i < a.len() && #[trigger] a[i].id == id && forall|j: int| 0 <= j < i ==> a[j].id != id {
        let c = choose|c: int| 0 <= c < a.len() && #[trigger] a[c].id == id && forall|j: int| 0 <= j < c ==> a[j].id != id;
        lemma_first_node(b, id, c);
    } else if exists|i: int| 0 <= i < b.len() && #[trigger] b[i].id == id && forall|j: int| 0 <= j < i ==> b[j].id != id {
        let c = choose|c: int| 0 <= c < b.len() && #[trigger] b[c].id == id && forall|j: int| 0 <= j < c ==> b[j].id != id;
        lemma_first_node(a, id, c);
    }
}

} // verus!
