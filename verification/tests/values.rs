use opencadgraph::strings::{str_eq, str_less, to_ascii_lowercase, trim, white_space};
use opencadgraph::value::{boolean, lace, list, Number, Value};

fn whole(n: u64) -> Value {
    Value::Number(Number::PosInt(n))
}

fn text(s: &str) -> Value {
    Value::String(s.to_string())
}

fn float(x: f64) -> Value {
    Value::Number(Number::Float(x.to_bits()))
}

#[test]
fn boolean_reads_booleans_numbers_and_words() {
    assert_eq!(boolean(&Value::Bool(true)), Some(true));
    assert_eq!(boolean(&whole(0)), Some(false));
    assert_eq!(boolean(&whole(3)), Some(true));
    assert_eq!(boolean(&Value::Number(Number::NegInt(-1))), Some(true));
    assert_eq!(boolean(&float(0.0)), Some(false));
    assert_eq!(boolean(&float(-0.0)), Some(false));
    assert_eq!(boolean(&float(0.5)), Some(true));
    assert_eq!(boolean(&text("  YES ")), Some(true));
    assert_eq!(boolean(&text("True")), Some(true));
    assert_eq!(boolean(&text("1")), Some(true));
    assert_eq!(boolean(&text("\u{3000}No\t")), Some(false));
    assert_eq!(boolean(&text("FALSE")), Some(false));
    assert_eq!(boolean(&text("0")), Some(false));
    assert_eq!(boolean(&text("maybe")), None);
    assert_eq!(boolean(&Value::Null), None);
    assert_eq!(boolean(&Value::Array(vec![])), None);
}

#[test]
fn list_wraps_single_values() {
    assert_eq!(list(&Value::Array(vec![whole(1), whole(2)])), vec![whole(1), whole(2)]);
    assert_eq!(list(&Value::Null), Vec::<Value>::new());
    assert_eq!(list(&text("a")), vec![text("a")]);
}

fn sum(args: &[Value]) -> Vec<Value> {
    let total: u64 = args
        .iter()
        .map(|v| match v {
            Value::Number(Number::PosInt(n)) => *n,
            _ => 0,
        })
        .sum();
    vec![whole(total), whole(args.len() as u64)]
}

#[test]
fn lace_without_lists_calls_once_and_resizes() {
    let r = lace(&[whole(1), whole(2)], &[true, true], 1, &sum);
    assert_eq!(r, vec![whole(3)]);
    let r = lace(&[whole(1), whole(2)], &[true, true], 3, &sum);
    assert_eq!(r, vec![whole(3), whole(2), Value::Null]);
}

#[test]
fn lace_walks_lists_in_step_up_to_the_shortest() {
    let a = Value::Array(vec![whole(1), whole(2), whole(3)]);
    let b = Value::Array(vec![whole(10), whole(20)]);
    let r = lace(&[a, b], &[true, true], 1, &sum);
    assert_eq!(r, vec![Value::Array(vec![whole(11), whole(22)])]);
}

#[test]
fn lace_passes_list_inputs_whole() {
    let a = Value::Array(vec![whole(1), whole(2)]);
    let pair = Value::Array(vec![whole(5), whole(6)]);
    let r = lace(&[a, pair.clone()], &[true, false], 2, &|args: &[Value]| vec![args[0].clone(), args[1].clone()]);
    assert_eq!(
        r,
        vec![Value::Array(vec![whole(1), whole(2)]), Value::Array(vec![pair.clone(), pair])]
    );
}

#[test]
fn lace_recurses_into_nested_lists() {
    let nested = Value::Array(vec![Value::Array(vec![whole(1), whole(2)]), Value::Array(vec![whole(3)])]);
    let r = lace(&[nested, whole(100)], &[true, true], 1, &sum);
    assert_eq!(
        r,
        vec![Value::Array(vec![
            Value::Array(vec![whole(101), whole(102)]),
            Value::Array(vec![whole(103)]),
        ])]
    );
}

#[test]
fn lace_over_an_empty_list_gives_empty_lists() {
    let r = lace(&[Value::Array(vec![]), whole(1)], &[true, true], 2, &sum);
    assert_eq!(r, vec![Value::Array(vec![]), Value::Array(vec![])]);
}

#[test]
fn value_clone_is_deep() {
    let v = Value::Object(vec![("k".to_string(), Value::Array(vec![whole(1), text("x")]))]);
    assert_eq!(v.clone(), v);
}

#[test]
fn trim_and_str_eq_agree_with_std() {
    for s in ["", "  ", " a b ", "\u{3000}x\u{85}", "\t\nword\r", "é ü"] {
        assert_eq!(trim(s), s.trim());
    }
    assert!(white_space('\u{2028}'));
    assert!(!white_space('x'));
    assert!(str_eq("äb", "äb"));
    assert!(!str_eq("ab", "abc"));
    assert!(!str_eq("ab", "ac"));
    assert!(str_eq("", ""));
}

#[test]
fn lowercase_and_order_agree_with_std() {
    for s in ["", "ABC", "MiXeD 123", "ÄÖÜ Straße", "Z[@A"] {
        assert_eq!(to_ascii_lowercase(s), s.to_ascii_lowercase());
    }
    for (a, b) in [("", ""), ("", "a"), ("a", ""), ("ab", "ac"), ("b", "ab"), ("é", "z"), ("abc", "ab"), ("x", "x")] {
        assert_eq!(str_less(a, b), a < b);
    }
}
