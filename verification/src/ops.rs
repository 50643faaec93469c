//! The signatures of library operations, and the list and text operations
//! that the library computes.
use vstd::prelude::*;
use crate::strings::{alphanumeric, ascii_alphanumeric, is_alphanumeric, push_char, str_eq};
use crate::value::{boolean, boolean_of, json_of, json_of_seq, list, list_of, Json, Value};

verus! {

broadcast use vstd::std_specs::vec::group_vec_axioms;

/// An input of an operation: its name, its value while nothing is linked to
/// it, and whether it takes a whole list instead of running once per element.
#[derive(Clone, Debug)]
pub struct Input {
    pub name: String,
    pub default: Value,
    /// Takes a whole list instead of running once per element.
    pub list: bool,
}

/// What the graph knows of an operation: its name, its category, its inputs
/// and the names of its outputs.
#[derive(Clone, Debug)]
pub struct Spec {
    pub name: String,
    pub category: String,
    pub inputs: Vec<Input>,
    pub outputs: Vec<String>,
}

} // verus!

verus! {

/// The leaves of a value: a list gives the leaves of its items in order,
/// anything else is its own leaf.
pub open spec fn leaves(v: Json) -> Seq<Json>
    decreases v,
{
    match v {
        Json::Array(items) => leaves_of(items),
        other => seq![other],
    }
}

/// The leaves of `items`, one after another.
pub open spec fn leaves_of(items: Seq<Json>) -> Seq<Json>
    decreases items,
{
    if items.len() == 0 {
        Seq::empty()
    } else {
        leaves_of(items.drop_last()) + leaves(items.last())
    }
}

/// Appends the leaves of `value` to `into`.
pub fn flatten(value: &Value, into: &mut Vec<Value>)
    ensures
        json_of_seq(final(into)@) == json_of_seq(old(into)@) + leaves(value@),
    decreases value,
{
    match value {
        Value::Array(items) => flatten_items(items, into),
        other => {
            let ghost before = json_of_seq(into@);
            into.push(other.clone());
            assert(json_of_seq(into@) =~= before + seq![value@]);
        },
    }
}

/// Appends the leaves of each of `items` to `into`.
fn flatten_items(items: &Vec<Value>, into: &mut Vec<Value>)
    ensures
        json_of_seq(final(into)@) == json_of_seq(old(into)@) + leaves_of(json_of_seq(items@)),
    decreases items,
{
    let ghost model = json_of_seq(items@);
    let ghost start = json_of_seq(into@);
    let mut i: usize = 0;
    while i < items.len()
        invariant
            i <= items@.len(),
            model == json_of_seq(items@),
            json_of_seq(into@) == start + leaves_of(model.take(i as int)),
        decreases items@.len() - i,
    {
        proof {
            assert(model.take(i + 1).drop_last() =~= model.take(i as int));
            assert(model[i as int] == json_of(items@[i as int]));
        }
        flatten(&items[i], into);
        assert(start + leaves_of(model.take(i as int)) + leaves(model[i as int])
            =~= start + leaves_of(model.take(i + 1)));
        i += 1;
    }
    assert(model.take(items@.len() as int) =~= model);
}

/// A list of the items that are not `null`.
pub open spec fn present(items: Seq<Json>) -> Seq<Json> {
    items.filter(|v: Json| !(v is Null))
}

/// A list of the given items that are not `null`.
pub fn create_list(items: &[Value]) -> (r: Value)
    ensures
        r@ == Json::Array(present(json_of_seq(items@))),
{
    let ghost model = json_of_seq(items@);
    let mut kept: Vec<Value> = Vec::new();
    let mut i: usize = 0;
    while i < items.len()
        invariant
            i <= items@.len(),
            model == json_of_seq(items@),
            json_of_seq(kept@) == present(model.take(i as int)),
        decreases items@.len() - i,
    {
        proof {
            assert(model.take(i + 1) =~= model.take(i as int).push(model[i as int]));
            model.take(i as int).lemma_filter_push(model[i as int], |v: Json| !(v is Null));
            assert(model[i as int] == json_of(items@[i as int]));
        }
        let ghost before = json_of_seq(kept@);
        match &items[i] {
            Value::Null => {},
            other => {
                kept.push(other.clone());
                assert(json_of_seq(kept@) =~= before.push(model[i as int]));
            },
        }
        i += 1;
    }
    assert(model.take(items@.len() as int) =~= model);
    Value::Array(kept)
}

} // verus!

verus! {

/// Upper bound on generated list lengths, so a mistyped count cannot hang the
/// evaluation.
pub const MAX_ITEMS: usize = 100_000;

/// The items of `items` whose mask reads true, and the others; items and
/// mask walked in step up to the shorter.
pub open spec fn mask_split(items: Seq<Json>, mask: Seq<Json>, n: nat) -> (Seq<Json>, Seq<Json>)
    decreases n,
{
    if n == 0 {
        (Seq::empty(), Seq::empty())
    } else {
        let (kept, dropped) = mask_split(items, mask, (n - 1) as nat);
        if boolean_of(mask[n - 1]) == Some(true) {
            (kept.push(items[n - 1]), dropped)
        } else {
            (kept, dropped.push(items[n - 1]))
        }
    }
}

/// Splits a list by a mask: the items whose mask reads true, then the others.
pub fn filter_by_mask(list_value: &Value, mask_value: &Value) -> (r: (Value, Value))
    ensures
        ({
            let items = list_of(list_value@);
            let mask = list_of(mask_value@);
            let n = if items.len() < mask.len() { items.len() } else { mask.len() };
            &&& r.0@ == Json::Array(mask_split(items, mask, n).0)
            &&& r.1@ == Json::Array(mask_split(items, mask, n).1)
        }),
{
    let items = list(list_value);
    let mask = list(mask_value);
    let ghost mi = json_of_seq(items@);
    let ghost mm = json_of_seq(mask@);
    let n: usize = if items.len() < mask.len() { items.len() } else { mask.len() };
    let mut kept: Vec<Value> = Vec::new();
    let mut dropped: Vec<Value> = Vec::new();
    let mut i: usize = 0;
    while i < n
        invariant
            mi == json_of_seq(items@),
            mm == json_of_seq(mask@),
            n <= items@.len(),
            n <= mask@.len(),
            i <= n,
            json_of_seq(kept@) == mask_split(mi, mm, i as nat).0,
            json_of_seq(dropped@) == mask_split(mi, mm, i as nat).1,
        decreases n - i,
    {
        assert(mm[i as int] == json_of(mask@[i as int]));
        assert(mi[i as int] == json_of(items@[i as int]));
        let keep = match boolean(&mask[i]) {
            Some(b) => b,
            None => false,
        };
        let ghost k0 = json_of_seq(kept@);
        let ghost d0 = json_of_seq(dropped@);
        if keep {
            kept.push(items[i].clone());
            assert(json_of_seq(kept@) =~= k0.push(mi[i as int]));
        } else {
            dropped.push(items[i].clone());
            assert(json_of_seq(dropped@) =~= d0.push(mi[i as int]));
        }
        i += 1;
    }
    (Value::Array(kept), Value::Array(dropped))
}

/// The position an index stands for in a list of `len` items, counting from
/// the end when negative.
pub open spec fn index_of(len: int, i: int) -> Option<int> {
    let x = if i < 0 { len + i } else { i };
    if 0 <= x < len { Some(x) } else { None }
}

/// The position index `i` stands for in a list of `len` items, counting from
/// the end when negative.
pub fn index(len: usize, i: i64) -> (r: Option<usize>)
    ensures
        r matches Some(x) ==> index_of(len as int, i as int) == Some(x as int),
        r is None ==> index_of(len as int, i as int) is None,
{
    let n = len as i128;
    let x: i128 = if i < 0 { n + i as i128 } else { i as i128 };
    if 0 <= x && x < n {
        Some(x as usize)
    } else {
        None
    }
}

/// A two-input logic operation: `f` of the booleans its first two arguments
/// read as; `null` unless both read as one.
pub fn logic<F: Fn(bool, bool) -> bool>(a: &[Value], f: &F) -> (r: Vec<Value>)
    requires
        a@.len() >= 2,
        forall|x: bool, y: bool| call_requires(*f, (x, y)),
    ensures
        r@.len() == 1,
        match (boolean_of(a@[0]@), boolean_of(a@[1]@)) {
            (Some(x), Some(y)) => r@[0]@ is Bool && call_ensures(*f, (x, y), r@[0]@->Bool_0),
            _ => r@[0]@ == Json::Null,
        },
{
    let value = match (boolean(&a[0]), boolean(&a[1])) {
        (Some(x), Some(y)) => Value::Bool(f(x, y)),
        _ => Value::Null,
    };
    vec![value]
}

/// The item at index `i` (from the end when negative); `null` when there is
/// none or no index.
pub fn get_item(list_value: &Value, i: Option<i64>) -> (r: Value)
    ensures
        r@ == match i {
            Some(i) => match index_of(list_of(list_value@).len() as int, i as int) {
                Some(x) => list_of(list_value@)[x],
                None => Json::Null,
            },
            None => Json::Null,
        },
{
    let items = list(list_value);
    match i {
        Some(i) => {
            match index(items.len(), i) {
                Some(x) => {
                    assert(json_of_seq(items@)[x as int] == json_of(items@[x as int]));
                    items[x].clone()
                },
                None => Value::Null,
            }
        },
        None => Value::Null,
    }
}

/// The negation of the boolean a value reads as; `null` when it reads as none.
pub fn negate(value: &Value) -> (r: Value)
    ensures
        r@ == match boolean_of(value@) {
            Some(b) => Json::Bool(!b),
            None => Json::Null,
        },
{
    match boolean(value) {
        Some(b) => Value::Bool(!b),
        None => Value::Null,
    }
}

/// `then` when `test` reads as true, `otherwise` when it reads as false,
/// `null` when it reads as neither.
pub fn branch(test: &Value, then: &Value, otherwise: &Value) -> (r: Value)
    ensures
        r@ == match boolean_of(test@) {
            Some(true) => then@,
            Some(false) => otherwise@,
            None => Json::Null,
        },
{
    match boolean(test) {
        Some(true) => then.clone(),
        Some(false) => otherwise.clone(),
        None => Value::Null,
    }
}

/// The first item of a list; `null` when it has none.
pub fn first_item(list_value: &Value) -> (r: Value)
    ensures
        r@ == if list_of(list_value@).len() > 0 { list_of(list_value@)[0] } else { Json::Null },
{
    let items = list(list_value);
    if items.len() > 0 {
        assert(json_of_seq(items@)[0] == json_of(items@[0]));
        items[0].clone()
    } else {
        Value::Null
    }
}

/// The last item of a list; `null` when it has none.
pub fn last_item(list_value: &Value) -> (r: Value)
    ensures
        r@ == if list_of(list_value@).len() > 0 { list_of(list_value@).last() } else { Json::Null },
{
    let items = list(list_value);
    let n = items.len();
    if n > 0 {
        assert(json_of_seq(items@)[n - 1] == json_of(items@[n - 1]));
        items[n - 1].clone()
    } else {
        Value::Null
    }
}

/// The items of a list in reverse order.
pub fn reverse(list_value: &Value) -> (r: Value)
    ensures
        r@ == Json::Array(list_of(list_value@).reverse()),
{
    let items = list(list_value);
    let ghost model = json_of_seq(items@);
    let mut out: Vec<Value> = Vec::new();
    let mut k: usize = items.len();
    while k > 0
        invariant
            model == json_of_seq(items@),
            k <= items@.len(),
            json_of_seq(out@) == model.reverse().take(items@.len() - k),
        decreases k,
    {
        k -= 1;
        let ghost before = json_of_seq(out@);
        out.push(items[k].clone());
        assert(json_of_seq(out@) =~= model.reverse().take(items@.len() - k)) by {
            assert(json_of_seq(out@) =~= before.push(json_of(items@[k as int])));
        }
    }
    assert(model.reverse().take(items@.len() as int) =~= model.reverse());
    Value::Array(out)
}

/// The items of one list followed by those of another.
pub fn join_lists(first: &Value, second: &Value) -> (r: Value)
    ensures
        r@ == Json::Array(list_of(first@) + list_of(second@)),
{
    let mut items = list(first);
    let mut more = list(second);
    let ghost a = json_of_seq(items@);
    let ghost b = json_of_seq(more@);
    items.append(&mut more);
    assert(json_of_seq(items@) =~= a + b);
    Value::Array(items)
}

/// `count` copies of an item, at most [`MAX_ITEMS`].
pub fn repeat_item(item: &Value, count: usize) -> (r: Value)
    ensures
        r@ == Json::Array(Seq::new(if count < MAX_ITEMS { count as nat } else { MAX_ITEMS as nat }, |k: int| item@)),
{
    let n = if count < MAX_ITEMS { count } else { MAX_ITEMS };
    let mut items: Vec<Value> = Vec::new();
    let mut k: usize = 0;
    while k < n
        invariant
            k <= n,
            json_of_seq(items@) == Seq::new(k as nat, |x: int| item@),
        decreases n - k,
    {
        let ghost before = json_of_seq(items@);
        let copy = item.clone();
        items.push(copy);
        assert(json_of_seq(items@) =~= before.push(copy@));
        assert(json_of_seq(items@) =~= Seq::new((k + 1) as nat, |x: int| item@));
        k += 1;
    }
    Value::Array(items)
}

/// `items` cut into lists of `size`, the last one holding what is left.
pub open spec fn chunks(items: Seq<Json>, size: nat) -> Seq<Json>
    decreases items.len(),
{
    if items.len() == 0 || size == 0 {
        Seq::empty()
    } else if items.len() <= size {
        seq![Json::Array(items)]
    } else {
        seq![Json::Array(items.take(size as int))] + chunks(items.skip(size as int), size)
    }
}

/// A list cut into lists of `size` items, the last one holding what is left.
pub fn chop(list_value: &Value, size: usize) -> (r: Value)
    requires
        size >= 1,
    ensures
        r@ == Json::Array(chunks(list_of(list_value@), size as nat)),
{
    let items = list(list_value);
    let ghost model = json_of_seq(items@);
    let mut out: Vec<Value> = Vec::new();
    let mut start: usize = 0;
    assert(json_of_seq(out@) + chunks(model.skip(0), size as nat) =~= chunks(model, size as nat)) by {
        assert(model.skip(0) =~= model);
    }
    while start < items.len()
        invariant
            model == json_of_seq(items@),
            size >= 1,
            start <= items@.len(),
            json_of_seq(out@) + chunks(model.skip(start as int), size as nat) == chunks(model, size as nat),
        decreases items@.len() - start,
    {
        let end = if items.len() - start <= size { items.len() } else { start + size };
        let mut chunk: Vec<Value> = Vec::new();
        let mut j: usize = start;
        while j < end
            invariant
                model == json_of_seq(items@),
                start <= j <= end <= items@.len(),
                json_of_seq(chunk@) == model.subrange(start as int, j as int),
            decreases end - j,
        {
            assert(model[j as int] == json_of(items@[j as int]));
            let ghost c0 = json_of_seq(chunk@);
            let copy = items[j].clone();
            chunk.push(copy);
            assert(json_of_seq(chunk@) =~= c0.push(model[j as int]));
            assert(json_of_seq(chunk@) =~= model.subrange(start as int, (j + 1) as int));
            j += 1;
        }
        let ghost rest = model.skip(start as int);
        let ghost before = json_of_seq(out@);
        out.push(Value::Array(chunk));
        proof {
            if rest.len() <= size {
                assert(model.subrange(start as int, end as int) =~= rest);
                assert(model.skip(end as int) =~= Seq::<Json>::empty());
            } else {
                assert(model.subrange(start as int, end as int) =~= rest.take(size as int));
                assert(model.skip(end as int) =~= rest.skip(size as int));
            }
            assert(json_of_seq(out@) =~= before.push(Json::Array(model.subrange(start as int, end as int))));
            assert(json_of_seq(out@) + chunks(model.skip(end as int), size as nat) =~= before + chunks(rest, size as nat));
        }
        start = end;
    }
    assert(model.skip(start as int) =~= Seq::<Json>::empty());
    assert(json_of_seq(out@) =~= chunks(model, size as nat));
    Value::Array(out)
}

} // verus!

verus! {

/// The length of the shortest of `rows`, 0 for none.
pub open spec fn narrowest(rows: Seq<Seq<Json>>) -> nat
    decreases rows.len(),
{
    if rows.len() == 0 {
        0
    } else if rows.len() == 1 {
        rows[0].len()
    } else {
        let rest = narrowest(rows.drop_last());
        if rest < rows.last().len() { rest } else { rows.last().len() }
    }
}

/// The rows a value reads as when a list of lists is expected.
pub open spec fn rows_of(v: Json) -> Seq<Seq<Json>> {
    list_of(v).map_values(|x: Json| list_of(x))
}

/// Rows turned into columns, as wide as the narrowest row.
pub open spec fn transposed(rows: Seq<Seq<Json>>) -> Json {
    Json::Array(Seq::new(narrowest(rows), |k: int| Json::Array(Seq::new(rows.len(), |r: int| rows[r][k]))))
}

pub proof fn lemma_narrowest(rows: Seq<Seq<Json>>)
    ensures
        forall|r: int| 0 <= r < rows.len() ==> narrowest(rows) <= #[trigger] rows[r].len(),
    decreases rows.len(),
{
    if rows.len() > 1 {
        lemma_narrowest(rows.drop_last());
        assert forall|r: int| 0 <= r < rows.len() implies narrowest(rows) <= #[trigger] rows[r].len() by {
            if r < rows.len() - 1 {
                assert(rows.drop_last()[r] == rows[r]);
            }
        }
    }
}

/// A list of lists turned round: item `k` of the result lists item `k` of
/// every row, for `k` up to the length of the shortest row.
pub fn transpose(value: &Value) -> (r: Value)
    ensures
        r@ == transposed(rows_of(value@)),
{
    let outer = list(value);
    let ghost model = rows_of(value@);
    let mut rows: Vec<Vec<Value>> = Vec::new();
    let mut i: usize = 0;
    while i < outer.len()
        invariant
            model == rows_of(value@),
            json_of_seq(outer@) == list_of(value@),
            i <= outer@.len(),
            rows@.len() == i,
            forall|r: int| 0 <= r < i ==> json_of_seq(#[trigger] rows@[r]@) == model[r],
        decreases outer@.len() - i,
    {
        assert(json_of_seq(outer@)[i as int] == json_of(outer@[i as int]));
        rows.push(list(&outer[i]));
        i += 1;
    }
    let mut width: usize = 0;
    if rows.len() > 0 {
        width = rows[0].len();
        let mut r: usize = 1;
        while r < rows.len()
            invariant
                1 <= r <= rows@.len(),
                rows@.len() == model.len(),
                forall|x: int| 0 <= x < rows@.len() ==> json_of_seq(#[trigger] rows@[x]@) == model[x],
                width == narrowest(model.take(r as int)),
            decreases rows@.len() - r,
        {
            assert(model.take(r + 1).drop_last() =~= model.take(r as int));
            assert(model.take(r + 1).last() == model[r as int]);
            assert(json_of_seq(rows@[r as int]@).len() == rows@[r as int]@.len());
            if rows[r].len() < width {
                width = rows[r].len();
            }
            r += 1;
        }
        assert(model.take(rows@.len() as int) =~= model);
    }
    proof {
        lemma_narrowest(model);
    }
    let mut columns: Vec<Value> = Vec::new();
    let mut k: usize = 0;
    while k < width
        invariant
            rows@.len() == model.len(),
            forall|x: int| 0 <= x < rows@.len() ==> json_of_seq(#[trigger] rows@[x]@) == model[x],
            forall|x: int| 0 <= x < model.len() ==> narrowest(model) <= #[trigger] model[x].len(),
            width == narrowest(model),
            k <= width,
            json_of_seq(columns@) == Seq::new(k as nat, |c: int| Json::Array(Seq::new(model.len(), |x: int| model[x][c]))),
        decreases width - k,
    {
        let mut column: Vec<Value> = Vec::new();
        let mut x: usize = 0;
        while x < rows.len()
            invariant
                rows@.len() == model.len(),
                forall|y: int| 0 <= y < rows@.len() ==> json_of_seq(#[trigger] rows@[y]@) == model[y],
                forall|y: int| 0 <= y < model.len() ==> narrowest(model) <= #[trigger] model[y].len(),
                width == narrowest(model),
                k < width,
                x <= rows@.len(),
                json_of_seq(column@) == Seq::new(x as nat, |y: int| model[y][k as int]),
            decreases rows@.len() - x,
        {
            assert(json_of_seq(rows@[x as int]@)[k as int] == json_of(rows@[x as int]@[k as int]));
            let ghost c0 = json_of_seq(column@);
            let copy = rows[x][k].clone();
            column.push(copy);
            assert(json_of_seq(column@) =~= c0.push(model[x as int][k as int]));
            assert(json_of_seq(column@) =~= Seq::new((x + 1) as nat, |y: int| model[y][k as int]));
            x += 1;
        }
        let ghost before = json_of_seq(columns@);
        columns.push(Value::Array(column));
        assert(json_of_seq(columns@) =~= Seq::new((k + 1) as nat, |c: int| Json::Array(Seq::new(model.len(), |x: int| model[x][c])))) by {
            assert(json_of_seq(columns@) =~= before.push(Json::Array(Seq::new(model.len(), |y: int| model[y][k as int]))));
        }
        k += 1;
    }
    Value::Array(columns)
}

/// The items from `start` up to `end`, none when the range does not fit.
pub fn slice(list_value: &Value, start: usize, end: usize) -> (r: Value)
    ensures
        ({
            let items = list_of(list_value@);
            let stop = if end < start { start as int } else { end as int };
            r@ == Json::Array(if stop <= items.len() { items.subrange(start as int, stop) } else { Seq::empty() })
        }),
{
    let items = list(list_value);
    let ghost model = json_of_seq(items@);
    let stop = if end < start { start } else { end };
    let mut out: Vec<Value> = Vec::new();
    if stop <= items.len() {
        let mut j: usize = start;
        while j < stop
            invariant
                model == json_of_seq(items@),
                start <= j <= stop <= items@.len(),
                json_of_seq(out@) == model.subrange(start as int, j as int),
            decreases stop - j,
        {
            assert(model[j as int] == json_of(items@[j as int]));
            let ghost o0 = json_of_seq(out@);
            let copy = items[j].clone();
            out.push(copy);
            assert(json_of_seq(out@) =~= o0.push(model[j as int]));
            assert(json_of_seq(out@) =~= model.subrange(start as int, (j + 1) as int));
            j += 1;
        }
    } else {
        assert(json_of_seq(out@) =~= Seq::<Json>::empty());
    }
    Value::Array(out)
}

/// Characters `start` to `start + length` of a text, as far as it goes.
pub fn substring(text: &str, start: usize, length: usize) -> (r: String)
    ensures
        r@ == text@.subrange(
            if start < text@.len() { start as int } else { text@.len() as int },
            if start + length < text@.len() { (start + length) as int } else { text@.len() as int },
        ),
{
    let len = text.unicode_len();
    let from = if start < len { start } else { len };
    let to = if length < len - from { from + length } else { len };
    text.substring_char(from, to).to_string()
}

} // verus!

verus! {

/// One text followed by another.
pub fn concatenate(a: &str, b: &str) -> (r: String)
    ensures
        r@ == a@ + b@,
{
    let mut r = a.to_string();
    r.append(b);
    r
}

/// Whether `t` stands in `s` from position `i` on.
pub open spec fn found_at(s: Seq<char>, t: Seq<char>, i: int) -> bool {
    0 <= i && i + t.len() <= s.len() && s.subrange(i, i + t.len()) == t
}

/// Whether `t` stands in `s` at some position (an empty `t` stands everywhere).
pub open spec fn text_contains(s: Seq<char>, t: Seq<char>) -> bool {
    exists|i: int| #[trigger] found_at(s, t, i)
}

fn matches_at(s: &str, t: &str, i: usize, n: usize, m: usize) -> (r: bool)
    requires
        n == s@.len(),
        m == t@.len(),
        i <= n,
    ensures
        r == found_at(s@, t@, i as int),
{
    if m > n - i {
        return false;
    }
    let mut j: usize = 0;
    while j < m
        invariant
            n == s@.len(),
            m == t@.len(),
            i + m <= n,
            j <= m,
            forall|k: int| 0 <= k < j ==> s@[i + k] == t@[k],
        decreases m - j,
    {
        if s.get_char(i + j) != t.get_char(j) {
            assert(s@.subrange(i as int, i + m)[j as int] != t@[j as int]);
            return false;
        }
        j += 1;
    }
    assert(s@.subrange(i as int, i + m) =~= t@);
    true
}

/// Whether `search` stands somewhere in `text`.
pub fn contains_text(text: &str, search: &str) -> (r: bool)
    ensures
        r == text_contains(text@, search@),
{
    let n = text.unicode_len();
    let m = search.unicode_len();
    let mut i: usize = 0;
    while i < n
        invariant
            n == text@.len(),
            m == search@.len(),
            i <= n,
            forall|k: int| 0 <= k < i ==> !found_at(text@, search@, k),
        decreases n - i,
    {
        if matches_at(text, search, i, n, m) {
            return true;
        }
        i += 1;
    }
    if matches_at(text, search, n, n, m) {
        return true;
    }
    assert forall|k: int| !found_at(text@, search@, k) by {
        if 0 <= k < n {
        }
    }
    false
}

/// `s` with each occurrence of `search`, from the left and without overlap,
/// replaced by `replacement`; unchanged when `search` is empty.
pub open spec fn replaced(s: Seq<char>, search: Seq<char>, replacement: Seq<char>) -> Seq<char>
    decreases s.len(),
{
    if search.len() == 0 || s.len() == 0 {
        s
    } else if found_at(s, search, 0) {
        replacement + replaced(s.skip(search.len() as int), search, replacement)
    } else {
        seq![s[0]] + replaced(s.drop_first(), search, replacement)
    }
}

/// `text` with each occurrence of `search` replaced by `replacement`.
pub fn replace_text(text: &str, search: &str, replacement: &str) -> (r: String)
    ensures
        r@ == replaced(text@, search@, replacement@),
{
    let n = text.unicode_len();
    let m = search.unicode_len();
    let mut r = String::new();
    if m == 0 {
        r.append(text);
        return r;
    }
    let mut i: usize = 0;
    assert(text@.skip(0) =~= text@);
    while i < n
        invariant
            n == text@.len(),
            m == search@.len(),
            m > 0,
            i <= n,
            r@ + replaced(text@.skip(i as int), search@, replacement@) == replaced(text@, search@, replacement@),
        decreases n - i,
    {
        let ghost rest = text@.skip(i as int);
        if matches_at(text, search, i, n, m) {
            assert(found_at(rest, search@, 0)) by {
                assert(rest.subrange(0, m as int) =~= text@.subrange(i as int, i + m));
            }
            assert(rest.skip(m as int) =~= text@.skip(i + m));
            r.append(replacement);
            i += m;
        } else {
            assert(!found_at(rest, search@, 0)) by {
                if rest.len() >= m {
                    assert(rest.subrange(0, m as int) =~= text@.subrange(i as int, i + m));
                }
            }
            assert(rest.drop_first() =~= text@.skip(i + 1));
            let c = text.get_char(i);
            push_char(&mut r, c);
            i += 1;
        }
    }
    assert(text@.skip(n as int) =~= Seq::<char>::empty());
    assert(r@ + Seq::<char>::empty() =~= r@);
    r
}

/// The parts of `s` between occurrences of `sep` (non-empty), found from
/// the left, the part being read so far being `part`.
pub open spec fn split_from(s: Seq<char>, sep: Seq<char>, part: Seq<char>) -> Seq<Seq<char>>
    decreases s.len(),
{
    if sep.len() == 0 || s.len() == 0 {
        seq![part + s]
    } else if found_at(s, sep, 0) {
        seq![part] + split_from(s.skip(sep.len() as int), sep, Seq::empty())
    } else {
        split_from(s.drop_first(), sep, part.push(s[0]))
    }
}

/// The parts `split_text` gives: each character alone for an empty
/// separator, else the texts between its occurrences.
pub open spec fn split_parts(s: Seq<char>, sep: Seq<char>) -> Seq<Seq<char>> {
    if sep.len() == 0 {
        Seq::new(s.len(), |i: int| seq![s[i]])
    } else {
        split_from(s, sep, Seq::empty())
    }
}

/// `text` cut at each occurrence of `separator`; into single characters
/// when the separator is empty.
pub fn split_text(text: &str, separator: &str) -> (r: Vec<String>)
    ensures
        r@.map_values(|p: String| p@) == split_parts(text@, separator@),
{
    let n = text.unicode_len();
    let m = separator.unicode_len();
    let mut parts: Vec<String> = Vec::new();
    if m == 0 {
        let mut i: usize = 0;
        while i < n
            invariant
                n == text@.len(),
                i <= n,
                parts@.map_values(|p: String| p@) == Seq::new(i as nat, |k: int| seq![text@[k]]),
            decreases n - i,
        {
            let mut one = String::new();
            push_char(&mut one, text.get_char(i));
            let ghost before = parts@.map_values(|p: String| p@);
            parts.push(one);
            assert(parts@.map_values(|p: String| p@) =~= Seq::new((i + 1) as nat, |k: int| seq![text@[k]])) by {
                assert(parts@.map_values(|p: String| p@) =~= before.push(one@));
                assert(one@ =~= seq![text@[i as int]]);
            }
            i += 1;
        }
        return parts;
    }
    let mut part = String::new();
    let mut i: usize = 0;
    assert(text@.skip(0) =~= text@);
    assert(part@ =~= Seq::<char>::empty());
    while i < n
        invariant
            n == text@.len(),
            m == separator@.len(),
            m > 0,
            i <= n,
            parts@.map_values(|p: String| p@) + split_from(text@.skip(i as int), separator@, part@)
                == split_from(text@, separator@, Seq::empty()),
        decreases n - i,
    {
        let ghost rest = text@.skip(i as int);
        let ghost done = parts@.map_values(|p: String| p@);
        if matches_at(text, separator, i, n, m) {
            assert(found_at(rest, separator@, 0)) by {
                assert(rest.subrange(0, m as int) =~= text@.subrange(i as int, i + m));
            }
            assert(rest.skip(m as int) =~= text@.skip(i + m));
            let finished = part;
            part = String::new();
            parts.push(finished);
            assert(parts@.map_values(|p: String| p@) =~= done.push(finished@));
            assert(done + (seq![finished@] + split_from(text@.skip(i + m), separator@, Seq::empty()))
                =~= done.push(finished@) + split_from(text@.skip(i + m), separator@, Seq::empty()));
            assert(part@ =~= Seq::<char>::empty());
            i += m;
        } else {
            assert(!found_at(rest, separator@, 0)) by {
                if rest.len() >= m {
                    assert(rest.subrange(0, m as int) =~= text@.subrange(i as int, i + m));
                }
            }
            assert(rest.drop_first() =~= text@.skip(i + 1));
            let c = text.get_char(i);
            push_char(&mut part, c);
            i += 1;
        }
    }
    assert(text@.skip(n as int) =~= Seq::<char>::empty());
    let ghost done = parts@.map_values(|p: String| p@);
    assert(part@ + Seq::<char>::empty() =~= part@);
    parts.push(part);
    assert(parts@.map_values(|p: String| p@) =~= done + seq![part@]);
    parts
}

/// Texts joined with `separator` between each two.
pub open spec fn joined(texts: Seq<Seq<char>>, separator: Seq<char>) -> Seq<char>
    decreases texts.len(),
{
    if texts.len() == 0 {
        Seq::empty()
    } else if texts.len() == 1 {
        texts[0]
    } else {
        joined(texts.drop_last(), separator) + separator + texts.last()
    }
}

/// Texts joined with `separator` between each two.
pub fn join_text(texts: &Vec<String>, separator: &str) -> (r: String)
    ensures
        r@ == joined(texts@.map_values(|t: String| t@), separator@),
{
    let ghost model = texts@.map_values(|t: String| t@);
    let mut r = String::new();
    let mut i: usize = 0;
    while i < texts.len()
        invariant
            model == texts@.map_values(|t: String| t@),
            i <= texts@.len(),
            r@ == joined(model.take(i as int), separator@),
        decreases texts@.len() - i,
    {
        assert(model.take(i + 1).drop_last() =~= model.take(i as int));
        if i > 0 {
            r.append(separator);
        } else {
            assert(r@ =~= Seq::<char>::empty());
        }
        r.append(texts[i].as_str());
        assert(model.take(i + 1).last() == texts@[i as int]@);
        i += 1;
    }
    assert(model.take(texts@.len() as int) =~= model);
    r
}

/// Whether `c` continues a variable name: a letter, a digit, `_`, or a `.`
/// after the first character.
pub open spec fn name_char(c: char, started: bool) -> bool {
    let letter_or_digit = if (c as u32) < 0x80 { ascii_alphanumeric(c) } else { alphanumeric(c) };
    letter_or_digit || c == '_' || (c == '.' && started)
}

/// What stands for a word in a formula: `(value)` for the variables `a`..`d`,
/// the word itself otherwise.
pub open spec fn replacement(word: Seq<char>, values: Seq<Seq<char>>) -> Seq<char> {
    if word == seq!['a'] {
        seq!['('] + values[0] + seq![')']
    } else if word == seq!['b'] {
        seq!['('] + values[1] + seq![')']
    } else if word == seq!['c'] {
        seq!['('] + values[2] + seq![')']
    } else if word == seq!['d'] {
        seq!['('] + values[3] + seq![')']
    } else {
        word
    }
}

/// The slot of a variable word: 0 to 3 for `a` to `d`.
pub open spec fn slot(word: Seq<char>) -> Option<nat> {
    if word == seq!['a'] {
        Some(0)
    } else if word == seq!['b'] {
        Some(1)
    } else if word == seq!['c'] {
        Some(2)
    } else if word == seq!['d'] {
        Some(3)
    } else {
        None
    }
}

/// How many values a word needs: one past its slot, none for another word.
pub open spec fn need(word: Seq<char>) -> nat {
    match slot(word) {
        Some(i) => i + 1,
        None => 0,
    }
}

/// The most values a finished word of `expression` needs, and the word being read.
pub open spec fn demand_scan(expression: Seq<char>) -> (nat, Seq<char>)
    decreases expression.len(),
{
    if expression.len() == 0 {
        (0, Seq::empty())
    } else {
        let (d, word) = demand_scan(expression.drop_last());
        let c = expression.last();
        if name_char(c, word.len() > 0) {
            (d, word.push(c))
        } else {
            (if d < need(word) { need(word) } else { d }, Seq::empty())
        }
    }
}

/// How many values `expression` needs: one past the last of `a` to `d` it uses.
pub open spec fn demand(expression: Seq<char>) -> nat {
    let (d, word) = demand_scan(expression);
    if d < need(word) { need(word) } else { d }
}

/// What a prefix of `expression` needs is no more than what all of it needs.
pub proof fn lemma_demand_prefix(expression: Seq<char>, i: int)
    requires
        0 <= i <= expression.len(),
    ensures
        demand_scan(expression.take(i)).0 <= demand(expression),
    decreases expression.len() - i,
{
    if i == expression.len() {
        assert(expression.take(i) =~= expression);
    } else {
        lemma_demand_prefix(expression, i + 1);
        assert(expression.take(i + 1).drop_last() =~= expression.take(i));
    }
}

/// Four values are enough for any expression.
pub proof fn lemma_demand_at_most_four(expression: Seq<char>)
    ensures
        demand(expression) <= 4,
{
    lemma_demand_scan_at_most_four(expression);
}

proof fn lemma_demand_scan_at_most_four(expression: Seq<char>)
    ensures
        demand_scan(expression).0 <= 4,
    decreases expression.len(),
{
    if expression.len() > 0 {
        lemma_demand_scan_at_most_four(expression.drop_last());
    }
}

/// The text written so far and the word being read, after `expression`.
pub open spec fn scanned(expression: Seq<char>, values: Seq<Seq<char>>) -> (Seq<char>, Seq<char>)
    decreases expression.len(),
{
    if expression.len() == 0 {
        (Seq::empty(), Seq::empty())
    } else {
        let (written, word) = scanned(expression.drop_last(), values);
        let c = expression.last();
        if name_char(c, word.len() > 0) {
            (written, word.push(c))
        } else {
            (written + replacement(word, values) + seq![c], Seq::empty())
        }
    }
}

/// `expression` with each of the variables `a`..`d` replaced by its value.
pub open spec fn substituted(expression: Seq<char>, values: Seq<Seq<char>>) -> Seq<char> {
    let (written, word) = scanned(expression, values);
    written + replacement(word, values)
}

/// Writes the word read so far, or what stands for it.
fn flush(word: &mut String, result: &mut String, values: &[String])
    requires
        need(old(word)@) <= values@.len(),
    ensures
        final(result)@ == old(result)@ + replacement(old(word)@, values@.map_values(|v: String| v@)),
        final(word)@ == Seq::<char>::empty(),
{
    let w = word.as_str();
    proof {
        reveal_strlit("a");
        reveal_strlit("b");
        reveal_strlit("c");
        reveal_strlit("d");
        assert("a"@ =~= seq!['a']);
        assert("b"@ =~= seq!['b']);
        assert("c"@ =~= seq!['c']);
        assert("d"@ =~= seq!['d']);
    }
    let slot: Option<usize> = if str_eq(w, "a") {
        Some(0)
    } else if str_eq(w, "b") {
        Some(1)
    } else if str_eq(w, "c") {
        Some(2)
    } else if str_eq(w, "d") {
        Some(3)
    } else {
        None
    };
    match slot {
        Some(i) => {
            proof {
                reveal_strlit("(");
                reveal_strlit(")");
                assert("("@ =~= seq!['(']);
                assert(")"@ =~= seq![')']);
            }
            result.append("(");
            result.append(values[i].as_str());
            result.append(")");
        },
        None => {
            result.append(w);
        },
    }
    *word = String::new();
}

/// Replaces the variables `a`..`d` in a formula with their values, each in
/// parentheses; `values` holds their values as text, as many as the
/// variables used need.
pub fn substitute(expression: &str, values: &[String]) -> (r: String)
    requires
        demand(expression@) <= values@.len(),
    ensures
        r@ == substituted(expression@, values@.map_values(|v: String| v@)),
{
    let ghost vals = values@.map_values(|v: String| v@);
    let mut result = String::new();
    let mut word = String::new();
    let n = expression.unicode_len();
    let mut i: usize = 0;
    while i < n
        invariant
            n == expression@.len(),
            demand(expression@) <= values@.len(),
            vals == values@.map_values(|v: String| v@),
            i <= n,
            (result@, word@) == scanned(expression@.take(i as int), vals),
            word@ == demand_scan(expression@.take(i as int)).1,
        decreases n - i,
    {
        let ch = expression.get_char(i);
        assert(expression@.take(i + 1).drop_last() =~= expression@.take(i as int));
        assert(expression@.take(i + 1).last() == ch);
        let started = word.unicode_len() > 0;
        if is_alphanumeric(ch) || ch == '_' || (ch == '.' && started) {
            push_char(&mut word, ch);
        } else {
            proof {
                lemma_demand_prefix(expression@, i + 1);
            }
            flush(&mut word, &mut result, values);
            push_char(&mut result, ch);
        }
        i += 1;
    }
    assert(expression@.take(n as int) =~= expression@);
    flush(&mut word, &mut result, values);
    result
}

} // verus!
