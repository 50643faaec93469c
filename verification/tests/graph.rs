use opencadgraph::fields::Fields;
use opencadgraph::value::{Number, Value};
use opencadgraph::{Graph, Host, Input, Kind, Link, NodeId, Port, Spec};

fn port(node: NodeId, field: &str) -> Port {
    Port { node, field: field.to_string() }
}

fn whole(n: u64) -> Value {
    Value::Number(Number::PosInt(n))
}

fn input(name: &str, default: Value, list: bool) -> Input {
    Input { name: name.to_string(), default, list }
}

fn add_spec() -> Spec {
    Spec {
        name: "Add".to_string(),
        category: "Math".to_string(),
        inputs: vec![input("a", whole(0), false), input("b", whole(0), false)],
        outputs: vec!["result".to_string()],
    }
}

fn value_spec() -> Spec {
    Spec {
        name: "Number".to_string(),
        category: "Input".to_string(),
        inputs: vec![input("value", whole(0), false)],
        outputs: vec!["value".to_string()],
    }
}

/// Adds integers; makes objects that echo their fields back.
struct TestHost {
    made: Vec<(NodeId, String, Vec<Vec<(String, Value)>>)>,
}

fn as_int(v: &Value) -> Option<u64> {
    match v {
        Value::Number(Number::PosInt(n)) => Some(*n),
        _ => None,
    }
}

impl Host for TestHost {
    fn objects(&mut self, node: NodeId, kind: &str, instances: &[Vec<(String, Value)>]) -> Vec<Vec<(String, Value)>> {
        self.made.push((node, kind.to_string(), instances.to_vec()));
        instances.to_vec()
    }

    fn call(&self, op: &Spec, args: &[Value]) -> Vec<Value> {
        match op.name.as_str() {
            "Add" => match (as_int(&args[0]), as_int(&args[1])) {
                (Some(x), Some(y)) => vec![whole(x + y)],
                _ => vec![Value::Null],
            },
            "Number" => vec![args[0].clone()],
            _ => vec![],
        }
    }
}

fn get(fields: &Fields, key: &str) -> Option<Value> {
    fields.get(key).cloned()
}

#[test]
fn add_issues_increasing_ids_and_default_params() {
    let mut g = Graph::default();
    let a = g.add(Kind::Op(add_spec()));
    let b = g.add(Kind::Object("Line".to_string()));
    assert_eq!((a, b), (1, 2));
    assert_eq!(g.nodes.len(), 2);
    assert_eq!(get(&g.nodes[0].params, "a"), Some(whole(0)));
    assert_eq!(get(&g.nodes[0].params, "b"), Some(whole(0)));
    assert_eq!(g.nodes[0].params.len(), 2);
    assert_eq!(g.nodes[1].params.len(), 0);
    assert_eq!(g.nodes[0].outputs.len(), 0);
}

#[test]
fn add_later_input_of_same_name_wins() {
    let mut g = Graph::default();
    let spec = Spec {
        name: "Twice".to_string(),
        category: "Math".to_string(),
        inputs: vec![input("x", whole(1), false), input("x", whole(2), false)],
        outputs: vec![],
    };
    let id = g.add(Kind::Op(spec));
    assert_eq!(get(&g.node(id).unwrap().params, "x"), Some(whole(2)));
}

#[test]
fn connect_refuses_loops_and_self_links() {
    let mut g = Graph::default();
    let a = g.add(Kind::Op(add_spec()));
    let b = g.add(Kind::Op(add_spec()));
    let c = g.add(Kind::Op(add_spec()));
    assert!(g.connect(port(a, "result"), port(b, "a")));
    assert!(g.connect(port(b, "result"), port(c, "a")));
    assert!(!g.connect(port(c, "result"), port(a, "a")));
    assert!(!g.connect(port(a, "result"), port(a, "b")));
    assert_eq!(g.links.len(), 2);
    assert!(g.reaches(a, c));
    assert!(!g.reaches(c, a));
    assert!(g.reaches(b, b));
}

#[test]
fn connect_replaces_the_previous_link_into_an_input() {
    let mut g = Graph::default();
    let a = g.add(Kind::Op(value_spec()));
    let b = g.add(Kind::Op(value_spec()));
    let c = g.add(Kind::Op(add_spec()));
    assert!(g.connect(port(a, "value"), port(c, "a")));
    assert!(g.connect(port(b, "value"), port(c, "a")));
    assert_eq!(g.links.len(), 1);
    assert_eq!(g.links[0].from, port(b, "value"));
    let link: Link = g.disconnect(&port(c, "a")).unwrap();
    assert_eq!(link.from, port(b, "value"));
    assert_eq!(link.to, port(c, "a"));
    assert!(!g.is_linked(&port(c, "a")));
    assert!(g.disconnect(&port(c, "a")).is_none());
}

#[test]
fn remove_drops_the_node_and_its_links() {
    let mut g = Graph::default();
    let a = g.add(Kind::Op(value_spec()));
    let b = g.add(Kind::Op(add_spec()));
    let c = g.add(Kind::Op(add_spec()));
    assert!(g.connect(port(a, "value"), port(b, "a")));
    assert!(g.connect(port(b, "result"), port(c, "a")));
    assert!(g.connect(port(a, "value"), port(c, "b")));
    let removed = g.remove(b).unwrap();
    assert_eq!(removed.id, b);
    assert_eq!(g.nodes.len(), 2);
    assert_eq!(g.links.len(), 1);
    assert_eq!(g.links[0].to, port(c, "b"));
    assert!(g.remove(b).is_none());
    assert!(g.node(b).is_none());
}

#[test]
fn order_puts_sources_first_and_leaves_out_loops() {
    let mut g = Graph::default();
    let a = g.add(Kind::Op(add_spec()));
    let b = g.add(Kind::Op(add_spec()));
    let c = g.add(Kind::Op(add_spec()));
    assert!(g.connect(port(c, "result"), port(b, "a")));
    assert!(g.connect(port(b, "result"), port(a, "a")));
    assert_eq!(g.order(), vec![c, b, a]);
    // A loop pushed by hand keeps its nodes out of the order.
    g.links.push(Link { from: port(a, "result"), to: port(c, "a") });
    assert_eq!(g.order(), Vec::<NodeId>::new());
}

#[test]
fn order_lists_independent_nodes_in_node_order() {
    let mut g = Graph::default();
    let a = g.add(Kind::Op(add_spec()));
    let b = g.add(Kind::Op(add_spec()));
    let c = g.add(Kind::Op(add_spec()));
    assert!(g.connect(port(a, "result"), port(c, "a")));
    assert_eq!(g.order(), vec![a, b, c]);
}

#[test]
fn input_reads_the_link_source_else_the_parameter() {
    let mut g = Graph::default();
    let a = g.add(Kind::Op(value_spec()));
    let b = g.add(Kind::Op(add_spec()));
    g.node_mut(b).unwrap().params.insert("b".to_string(), whole(7));
    g.node_mut(a).unwrap().outputs.insert("value".to_string(), whole(3));
    assert!(g.connect(port(a, "value"), port(b, "a")));
    assert_eq!(g.input(&port(b, "a")), whole(3));
    assert_eq!(g.input(&port(b, "b")), whole(7));
    assert_eq!(g.input(&port(b, "missing")), Value::Null);
    assert!(g.connect(port(a, "nothing"), port(b, "b")));
    assert_eq!(g.input(&port(b, "b")), Value::Null);
}

#[test]
fn evaluate_runs_upstream_first() {
    let mut g = Graph::default();
    let sum = g.add(Kind::Op(add_spec()));
    let x = g.add(Kind::Op(value_spec()));
    g.node_mut(x).unwrap().params.insert("value".to_string(), whole(5));
    g.node_mut(sum).unwrap().params.insert("b".to_string(), whole(4));
    assert!(g.connect(port(x, "value"), port(sum, "a")));
    let mut host = TestHost { made: vec![] };
    g.evaluate(&mut host);
    assert_eq!(get(&g.node(x).unwrap().outputs, "value"), Some(whole(5)));
    assert_eq!(get(&g.node(sum).unwrap().outputs, "result"), Some(whole(9)));
}

#[test]
fn evaluate_laces_lists_on_scalar_inputs() {
    let mut g = Graph::default();
    let sum = g.add(Kind::Op(add_spec()));
    let list = Value::Array(vec![whole(1), whole(2), whole(3)]);
    g.node_mut(sum).unwrap().params.insert("a".to_string(), list);
    g.node_mut(sum).unwrap().params.insert("b".to_string(), whole(10));
    let mut host = TestHost { made: vec![] };
    g.evaluate(&mut host);
    assert_eq!(
        get(&g.node(sum).unwrap().outputs, "result"),
        Some(Value::Array(vec![whole(11), whole(12), whole(13)]))
    );
}

#[test]
fn evaluate_makes_one_object_per_element_of_the_shortest_list() {
    let mut g = Graph::default();
    let src = g.add(Kind::Op(value_spec()));
    let other = g.add(Kind::Op(value_spec()));
    let line = g.add(Kind::Object("Line".to_string()));
    g.node_mut(src).unwrap().params.insert("value".to_string(), Value::Array(vec![whole(1), whole(2), whole(3)]));
    g.node_mut(other).unwrap().params.insert("value".to_string(), Value::Array(vec![whole(7), whole(8)]));
    assert!(g.connect(port(src, "value"), port(line, "x")));
    assert!(g.connect(port(other, "value"), port(line, "y")));
    let mut host = TestHost { made: vec![] };
    g.evaluate(&mut host);
    let (node, kind, instances) = &host.made[0];
    assert_eq!((*node, kind.as_str()), (line, "Line"));
    assert_eq!(instances.len(), 2);
    assert_eq!(instances[1], vec![("x".to_string(), whole(2)), ("y".to_string(), whole(8))]);
    let outputs = &g.node(line).unwrap().outputs;
    assert_eq!(get(outputs, "x"), Some(Value::Array(vec![whole(1), whole(2)])));
    assert_eq!(get(outputs, "y"), Some(Value::Array(vec![whole(7), whole(8)])));
}

#[test]
fn evaluate_makes_no_object_for_an_empty_list() {
    let mut g = Graph::default();
    let src = g.add(Kind::Op(value_spec()));
    let line = g.add(Kind::Object("Line".to_string()));
    g.node_mut(src).unwrap().params.insert("value".to_string(), Value::Array(vec![]));
    assert!(g.connect(port(src, "value"), port(line, "x")));
    let mut host = TestHost { made: vec![] };
    g.evaluate(&mut host);
    assert_eq!(host.made.len(), 1);
    let (node, kind, instances) = &host.made[0];
    assert_eq!((*node, kind.as_str()), (line, "Line"));
    assert!(instances.is_empty());
    assert_eq!(g.node(line).unwrap().outputs.len(), 0);
}

#[test]
fn object_outputs_of_one_instance_keep_plain_values() {
    let outputs = opencadgraph::graph::object_outputs(vec![vec![("length".to_string(), whole(4)), ("length".to_string(), whole(5))]]);
    assert_eq!(outputs.get("length").cloned(), Some(whole(5)));
    let many = opencadgraph::graph::object_outputs(vec![vec![("a".to_string(), whole(1))], vec![("a".to_string(), whole(2))]]);
    assert_eq!(many.get("a").cloned(), Some(Value::Array(vec![whole(1), whole(2)])));
}

#[test]
fn node_mut_changes_only_the_first_node_with_the_id() {
    let mut g = Graph::default();
    let a = g.add(Kind::Op(add_spec()));
    g.node_mut(a).unwrap().params.insert("a".to_string(), whole(9));
    assert_eq!(get(&g.node(a).unwrap().params, "a"), Some(whole(9)));
    assert!(g.node_mut(42).is_none());
}

#[test]
fn ids_are_never_reused_after_remove() {
    let mut g = Graph::default();
    let a = g.add(Kind::Op(add_spec()));
    let b = g.add(Kind::Op(add_spec()));
    assert!(g.remove(b).is_some());
    let c = g.add(Kind::Op(add_spec()));
    assert_eq!((a, c), (1, 3));
    let ids: Vec<NodeId> = g.nodes.iter().map(|n| n.id).collect();
    assert_eq!(ids, vec![1, 3]);
}

#[test]
fn op_args_reads_each_input_and_its_lacing() {
    let mut g = Graph::default();
    let spec = Spec {
        name: "Pick".to_string(),
        category: "List".to_string(),
        inputs: vec![input("list", Value::Null, true), input("index", whole(1), false)],
        outputs: vec!["item".to_string()],
    };
    let id = g.add(Kind::Op(spec.clone()));
    let (args, scalar) = g.op_args(id, &spec);
    assert_eq!(args, vec![Value::Null, whole(1)]);
    assert_eq!(scalar, vec![false, true]);
}

#[test]
fn object_instances_of_an_empty_list_are_none() {
    let mut g = Graph::default();
    let src = g.add(Kind::Op(value_spec()));
    let line = g.add(Kind::Object("Line".to_string()));
    g.node_mut(src).unwrap().outputs.insert("value".to_string(), Value::Array(vec![]));
    assert!(g.connect(port(src, "value"), port(line, "x")));
    let fixed = g.add(Kind::Op(value_spec()));
    g.node_mut(fixed).unwrap().outputs.insert("value".to_string(), whole(4));
    assert!(g.connect(port(fixed, "value"), port(line, "y")));
    let instances = g.object_instances(line);
    assert!(instances.is_empty());
    g.node_mut(src).unwrap().outputs.insert("value".to_string(), Value::Array(vec![whole(1), whole(2)]));
    let instances = g.object_instances(line);
    assert_eq!(
        instances,
        vec![
            vec![("x".to_string(), whole(1)), ("y".to_string(), whole(4))],
            vec![("x".to_string(), whole(2)), ("y".to_string(), whole(4))],
        ]
    );
}

#[test]
fn ids_are_not_handed_out_again_after_remove() {
    let mut g = Graph::default();
    let first = g.add(Kind::Op(value_spec()));
    assert_eq!(first, 1);
    assert!(g.remove(first).is_some());
    let second = g.add(Kind::Op(value_spec()));
    assert_eq!(second, 2);
    assert!(g.node(first).is_none());
}

#[test]
fn evaluate_twice_leaves_outputs_as_they_were() {
    let mut g = Graph::default();
    let a = g.add(Kind::Op(value_spec()));
    let b = g.add(Kind::Op(add_spec()));
    g.node_mut(a).unwrap().params.insert("value".to_string(), whole(3));
    g.node_mut(b).unwrap().params.insert("b".to_string(), whole(4));
    assert!(g.connect(port(a, "value"), port(b, "a")));
    let mut host = TestHost { made: vec![] };
    g.evaluate(&mut host);
    let once: Vec<Option<Value>> = vec![get(&g.nodes[0].outputs, "value"), get(&g.nodes[1].outputs, "result")];
    assert_eq!(once, vec![Some(whole(3)), Some(whole(7))]);
    g.evaluate(&mut host);
    let twice: Vec<Option<Value>> = vec![get(&g.nodes[0].outputs, "value"), get(&g.nodes[1].outputs, "result")];
    assert_eq!(once, twice);
}
