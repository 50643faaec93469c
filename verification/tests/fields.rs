use opencadgraph::fields::Fields;
use opencadgraph::value::{Number, Value};

fn whole(n: u64) -> Value {
    Value::Number(Number::PosInt(n))
}

#[test]
fn fields_list_names_in_code_point_order_and_replace_values() {
    let mut f = Fields::new();
    f.insert("b".to_string(), whole(1));
    f.insert("a".to_string(), whole(2));
    f.insert("B".to_string(), whole(3));
    f.insert("é".to_string(), whole(4));
    f.insert("b".to_string(), whole(5));
    let names: Vec<&str> = f.entries().iter().map(|(k, _)| k.as_str()).collect();
    assert_eq!(names, vec!["B", "a", "b", "é"]);
    assert_eq!(f.get("b"), Some(&whole(5)));
    assert_eq!(f.get("c"), None);
    assert_eq!(f.len(), 4);
}

#[test]
fn push_item_gathers_lists() {
    let mut f = Fields::new();
    f.push_item("x".to_string(), whole(1));
    f.push_item("x".to_string(), whole(2));
    assert_eq!(f.get("x"), Some(&Value::Array(vec![whole(1), whole(2)])));
    f.insert("y".to_string(), whole(7));
    f.push_item("y".to_string(), whole(8));
    assert_eq!(f.get("y"), Some(&whole(7)));
}
