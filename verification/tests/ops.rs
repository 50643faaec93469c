use opencadgraph::ops::{
    concatenate, contains_text, replace_text, split_text,
    branch, chop, create_list, filter_by_mask, first_item, flatten, get_item, index, join_lists, join_text, last_item, logic,
    negate, repeat_item, reverse, slice, substitute,
    substring, transpose, MAX_ITEMS,
};
use opencadgraph::value::{Number, Value};

fn whole(n: u64) -> Value {
    Value::Number(Number::PosInt(n))
}

fn arr(items: Vec<Value>) -> Value {
    Value::Array(items)
}

#[test]
fn flatten_collects_leaves_in_order() {
    let v = arr(vec![whole(1), arr(vec![whole(2), arr(vec![whole(3)])]), arr(vec![]), whole(4)]);
    let mut out = vec![whole(0)];
    flatten(&v, &mut out);
    assert_eq!(out, vec![whole(0), whole(1), whole(2), whole(3), whole(4)]);
}

#[test]
fn create_list_skips_nulls() {
    let r = create_list(&[whole(1), Value::Null, arr(vec![]), Value::Null, whole(2)]);
    assert_eq!(r, arr(vec![whole(1), arr(vec![]), whole(2)]));
}

#[test]
fn filter_by_mask_splits_up_to_the_shorter() {
    let items = arr(vec![whole(1), whole(2), whole(3), whole(4)]);
    let mask = arr(vec![Value::Bool(true), Value::String("no".to_string()), Value::Null]);
    let (kept, dropped) = filter_by_mask(&items, &mask);
    assert_eq!(kept, arr(vec![whole(1)]));
    assert_eq!(dropped, arr(vec![whole(2), whole(3)]));
}

#[test]
fn index_counts_from_the_end_when_negative() {
    assert_eq!(index(3, 0), Some(0));
    assert_eq!(index(3, -1), Some(2));
    assert_eq!(index(3, -3), Some(0));
    assert_eq!(index(3, -4), None);
    assert_eq!(index(3, 3), None);
    assert_eq!(index(0, 0), None);
}

#[test]
fn get_item_reads_one_item() {
    let items = arr(vec![whole(1), whole(2), whole(3)]);
    assert_eq!(get_item(&items, Some(-1)), whole(3));
    assert_eq!(get_item(&items, Some(5)), Value::Null);
    assert_eq!(get_item(&items, None), Value::Null);
    assert_eq!(get_item(&whole(9), Some(0)), whole(9));
}

#[test]
fn repeat_item_is_capped() {
    assert_eq!(repeat_item(&whole(1), 3), arr(vec![whole(1), whole(1), whole(1)]));
    match repeat_item(&Value::Null, MAX_ITEMS + 5) {
        Value::Array(items) => assert_eq!(items.len(), MAX_ITEMS),
        _ => panic!("not a list"),
    }
}

#[test]
fn chop_cuts_into_chunks() {
    let items = arr(vec![whole(1), whole(2), whole(3), whole(4), whole(5)]);
    assert_eq!(
        chop(&items, 2),
        arr(vec![arr(vec![whole(1), whole(2)]), arr(vec![whole(3), whole(4)]), arr(vec![whole(5)])])
    );
    assert_eq!(chop(&Value::Null, 3), arr(vec![]));
}

#[test]
fn transpose_turns_rows_into_columns() {
    let rows = arr(vec![arr(vec![whole(1), whole(2), whole(3)]), arr(vec![whole(4), whole(5)])]);
    assert_eq!(transpose(&rows), arr(vec![arr(vec![whole(1), whole(4)]), arr(vec![whole(2), whole(5)])]));
    assert_eq!(transpose(&arr(vec![])), arr(vec![]));
}

#[test]
fn slice_takes_a_range() {
    let items = arr(vec![whole(1), whole(2), whole(3), whole(4)]);
    assert_eq!(slice(&items, 1, 3), arr(vec![whole(2), whole(3)]));
    assert_eq!(slice(&items, 3, 1), arr(vec![]));
    assert_eq!(slice(&items, 0, 9), arr(vec![]));
}

#[test]
fn substring_counts_characters() {
    assert_eq!(substring("héllo", 1, 3), "éll");
    assert_eq!(substring("abc", 2, 10), "c");
    assert_eq!(substring("abc", 5, 1), "");
}

#[test]
fn join_text_puts_the_separator_between() {
    let texts = vec!["a".to_string(), "b".to_string(), "c".to_string()];
    assert_eq!(join_text(&texts, ", "), "a, b, c");
    assert_eq!(join_text(&vec![], ","), "");
}

#[test]
fn substitute_replaces_variables_only() {
    let values = vec!["1".to_string(), "2.5".to_string(), "3".to_string(), "4".to_string()];
    assert_eq!(substitute("a+b*c", &values), "(1)+(2.5)*(3)");
    assert_eq!(substitute("ab + d.x + _a + a_1", &values), "ab + d.x + _a + a_1");
    assert_eq!(substitute("sin(a)/d", &values), "sin((1))/(4)");
    assert_eq!(substitute("", &values), "");
}

#[test]
fn logic_combines_booleans_and_gives_null_otherwise() {
    let and = |x: bool, y: bool| x && y;
    let xor = |x: bool, y: bool| x != y;
    let yes = Value::String("yes".to_string());
    assert_eq!(logic(&[Value::Bool(true), yes.clone()], &and), vec![Value::Bool(true)]);
    assert_eq!(logic(&[whole(0), yes.clone()], &and), vec![Value::Bool(false)]);
    assert_eq!(logic(&[whole(2), yes], &xor), vec![Value::Bool(false)]);
    assert_eq!(logic(&[Value::Bool(true), Value::Null], &and), vec![Value::Null]);
    assert_eq!(logic(&[Value::String("maybe".to_string()), Value::Bool(true)], &xor), vec![Value::Null]);
}

#[test]
fn substitute_needs_values_only_for_the_variables_used() {
    assert_eq!(substitute("a*2", &["7".to_string()]), "(7)*2");
    assert_eq!(substitute("x+y", &[]), "x+y");
}

#[test]
fn negate_and_branch_read_booleans() {
    let yes = Value::String(" Yes ".to_string());
    assert_eq!(negate(&yes), Value::Bool(false));
    assert_eq!(negate(&whole(0)), Value::Bool(true));
    assert_eq!(negate(&Value::Null), Value::Null);
    assert_eq!(branch(&yes, &whole(1), &whole(2)), whole(1));
    assert_eq!(branch(&Value::Bool(false), &whole(1), &whole(2)), whole(2));
    assert_eq!(branch(&Value::String("maybe".to_string()), &whole(1), &whole(2)), Value::Null);
}

#[test]
fn first_last_reverse_and_join_work_on_lists() {
    let l = arr(vec![whole(1), whole(2), whole(3)]);
    assert_eq!(first_item(&l), whole(1));
    assert_eq!(last_item(&l), whole(3));
    assert_eq!(first_item(&arr(vec![])), Value::Null);
    assert_eq!(last_item(&Value::Null), Value::Null);
    assert_eq!(first_item(&whole(7)), whole(7));
    assert_eq!(reverse(&l), arr(vec![whole(3), whole(2), whole(1)]));
    assert_eq!(reverse(&Value::Null), arr(vec![]));
    assert_eq!(join_lists(&l, &whole(9)), arr(vec![whole(1), whole(2), whole(3), whole(9)]));
    assert_eq!(join_lists(&Value::Null, &arr(vec![whole(4)])), arr(vec![whole(4)]));
}

#[test]
fn text_operations_agree_with_std() {
    assert_eq!(concatenate("ab", "çd"), "abçd");
    for (s, t) in [("hello", "ll"), ("hello", ""), ("", ""), ("", "a"), ("abc", "abcd"), ("aXbX", "X"), ("é", "é")] {
        assert_eq!(contains_text(s, t), s.contains(t));
    }
    for (s, f, r) in [("aaa", "aa", "b"), ("a,b,,c", ",", ";"), ("xyz", "q", "w"), ("abab", "ab", ""), ("ü-ü", "ü", "u")] {
        assert_eq!(replace_text(s, f, r), s.replace(f, r));
    }
    assert_eq!(replace_text("abc", "", "x"), "abc");
    for (s, sep) in [("a,b,,c", ","), (",a,", ","), ("", ","), ("aaa", "aa"), ("x--y--", "--"), ("no", "yes")] {
        let expected: Vec<String> = s.split(sep).map(|p| p.to_string()).collect();
        assert_eq!(split_text(s, sep), expected);
    }
    assert_eq!(split_text("añb", ""), vec!["a".to_string(), "ñ".to_string(), "b".to_string()]);
    assert!(split_text("", "").is_empty());
}
