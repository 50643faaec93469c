//! Port values.
use vstd::prelude::*;
use crate::strings::{trim, to_ascii_lowercase, str_eq, text_less, trimmed, ascii_lowered};

verus! {

broadcast use vstd::std_specs::vec::group_vec_axioms;

/// A JSON number as it is held: a non-negative integer, a negative integer,
/// or a finite double given by its IEEE-754 bit pattern.
#[derive(Clone, Copy, Debug, PartialEq, Eq, Structural)]
pub enum Number {
    PosInt(u64),
    NegInt(i64),
    Float(u64),
}

/// A port value: plain JSON.
#[derive(Debug, PartialEq)]
pub enum Value {
    Null,
    Bool(bool),
    Number(Number),
    String(String),
    Array(Vec<Value>),
    Object(Vec<(String, Value)>),
}

/// The mathematical model of a [`Value`].
pub enum Json {
    Null,
    Bool(bool),
    Number(Number),
    String(Seq<char>),
    Array(Seq<Json>),
    Object(Seq<(Seq<char>, Json)>),
}

/// A number that JSON holds: a negative integer below zero, a finite double.
pub open spec fn valid_number(n: Number) -> bool {
    match n {
        Number::PosInt(_) => true,
        Number::NegInt(i) => i < 0,
        Number::Float(bits) => bits & 0x7ff0_0000_0000_0000 != 0x7ff0_0000_0000_0000,
    }
}

/// A value that JSON holds: its numbers valid, and each object's keys
/// distinct and in increasing order, all the way down.
pub open spec fn valid(v: Json) -> bool
    decreases v,
{
    match v {
        Json::Number(n) => valid_number(n),
        Json::Array(items) => forall|i: int| 0 <= i < items.len() ==> valid(#[trigger] items[i]),
        Json::Object(entries) => {
            &&& forall|i: int, j: int| 0 <= i < j < entries.len() ==> text_less(#[trigger] entries[i].0, #[trigger] entries[j].0)
            &&& forall|i: int| 0 <= i < entries.len() ==> valid(#[trigger] entries[i].1)
        },
        _ => true,
    }
}

pub open spec fn json_of_seq(s: Seq<Value>) -> Seq<Json>
    decreases s,
{
    Seq::new(s.len(), |i: int| if 0 <= i < s.len() { json_of(s[i]) } else { Json::Null })
}

pub open spec fn json_of_entries(s: Seq<(String, Value)>) -> Seq<(Seq<char>, Json)>
    decreases s,
{
    Seq::new(s.len(), |i: int| if 0 <= i < s.len() { (s[i].0@, json_of(s[i].1)) } else { (Seq::empty(), Json::Null) })
}

pub open spec fn json_of(v: Value) -> Json
    decreases v,
{
    match v {
        Value::Null => Json::Null,
        Value::Bool(b) => Json::Bool(b),
        Value::Number(n) => Json::Number(n),
        Value::String(s) => Json::String(s@),
        Value::Array(items) => Json::Array(json_of_seq(items@)),
        Value::Object(entries) => Json::Object(json_of_entries(entries@)),
    }
}

impl View for Value {
    type V = Json;

    open spec fn view(&self) -> Json {
        json_of(*self)
    }
}

pub fn clone_values(items: &Vec<Value>) -> (r: Vec<Value>)
    ensures
        json_of_seq(r@) == json_of_seq(items@),
    decreases items,
{
    let mut r: Vec<Value> = Vec::new();
    let mut i: usize = 0;
    while i < items.len()
        invariant
            i <= items.len(),
            r@.len() == i,
            forall|j: int| 0 <= j < i ==> json_of(#[trigger] r@[j]) == json_of(items@[j]),
        decreases items.len() - i,
    {
        r.push(items[i].clone());
        i += 1;
    }
    assert(json_of_seq(r@) =~= json_of_seq(items@));
    r
}

pub fn clone_entries(entries: &Vec<(String, Value)>) -> (r: Vec<(String, Value)>)
    ensures
        json_of_entries(r@) == json_of_entries(entries@),
    decreases entries,
{
    let mut r: Vec<(String, Value)> = Vec::new();
    let mut i: usize = 0;
    while i < entries.len()
        invariant
            i <= entries.len(),
            r@.len() == i,
            forall|j: int| 0 <= j < i ==> (#[trigger] r@[j]).0@ == entries@[j].0@ && json_of(r@[j].1) == json_of(entries@[j].1),
        decreases entries.len() - i,
    {
        let entry = &entries[i];
        r.push((entry.0.clone(), entry.1.clone()));
        i += 1;
    }
    assert(json_of_entries(r@) =~= json_of_entries(entries@));
    r
}

impl Clone for Value {
    fn clone(&self) -> (r: Self)
        ensures
            r@ == self@,
        decreases self,
    {
        match self {
            Value::Null => Value::Null,
            Value::Bool(b) => Value::Bool(*b),
            Value::Number(n) => Value::Number(*n),
            Value::String(s) => Value::String(s.clone()),
            Value::Array(items) => Value::Array(clone_values(items)),
            Value::Object(entries) => Value::Object(clone_entries(entries)),
        }
    }
}

} // verus!

verus! {

/// Nesting depth of a value: 0 for anything that is not a list.
pub open spec fn height(j: Json) -> nat
    decreases j,
{
    match j {
        Json::Array(items) => 1 + heights(items),
        _ => 0,
    }
}

/// The greatest height among `items`, 0 for none.
pub open spec fn heights(items: Seq<Json>) -> nat
    decreases items,
{
    if items.len() == 0 {
        0
    } else {
        let rest = heights(items.drop_last());
        let last = height(items.last());
        if rest < last { last } else { rest }
    }
}

pub proof fn lemma_item_lower(items: Seq<Json>, k: int)
    requires
        0 <= k < items.len(),
    ensures
        height(items[k]) < height(Json::Array(items)),
    decreases items.len(),
{
    if k < items.len() - 1 {
        lemma_item_lower(items.drop_last(), k);
        assert(items.drop_last()[k] == items[k]);
    }
}

/// How many inputs take part in lacing: `inputs` and `scalar` are walked in step.
pub open spec fn lane_count(inputs: Seq<Json>, scalar: Seq<bool>) -> nat {
    if inputs.len() < scalar.len() { inputs.len() } else { scalar.len() }
}

/// Whether input `i` is a list arriving at a scalar input.
pub open spec fn laced_at(inputs: Seq<Json>, scalar: Seq<bool>, i: int) -> bool {
    scalar[i] && inputs[i] is Array
}

/// The shortest list among the first `i` laced inputs, if any.
pub open spec fn shortest_upto(inputs: Seq<Json>, scalar: Seq<bool>, i: nat) -> Option<nat>
    decreases i,
{
    if i == 0 {
        None
    } else {
        let rest = shortest_upto(inputs, scalar, (i - 1) as nat);
        if laced_at(inputs, scalar, i - 1) {
            let len = inputs[i - 1]->Array_0.len();
            match rest {
                Some(m) => Some(if m < len { m } else { len }),
                None => Some(len),
            }
        } else {
            rest
        }
    }
}

/// The shortest list arriving at a scalar input, if any.
pub open spec fn shortest(inputs: Seq<Json>, scalar: Seq<bool>) -> Option<nat> {
    shortest_upto(inputs, scalar, lane_count(inputs, scalar))
}

/// Row `k` of a laced call: element `k` of each laced list, the other inputs whole.
pub open spec fn row(inputs: Seq<Json>, scalar: Seq<bool>, k: int) -> Seq<Json> {
    Seq::new(
        lane_count(inputs, scalar),
        |i: int| if laced_at(inputs, scalar, i) { inputs[i]->Array_0[k] } else { inputs[i] },
    )
}

/// Sum of the heights of the first `i` inputs that are scalar.
pub open spec fn scalar_height_upto(inputs: Seq<Json>, scalar: Seq<bool>, i: nat) -> nat
    decreases i,
{
    if i == 0 {
        0
    } else {
        scalar_height_upto(inputs, scalar, (i - 1) as nat) + if scalar[i - 1] {
            height(inputs[i - 1])
        } else {
            0
        }
    }
}

pub open spec fn scalar_height(inputs: Seq<Json>, scalar: Seq<bool>) -> nat {
    scalar_height_upto(inputs, scalar, lane_count(inputs, scalar))
}

/// Lacing happens exactly when some scalar input receives a list, and runs
/// no longer than any such list.
pub proof fn lemma_shortest_bounds(inputs: Seq<Json>, scalar: Seq<bool>, i: nat)
    requires
        i <= lane_count(inputs, scalar),
    ensures
        shortest_upto(inputs, scalar, i) is Some <==> exists|j: int|
            0 <= j < i && #[trigger] laced_at(inputs, scalar, j),
        shortest_upto(inputs, scalar, i) matches Some(m) ==> forall|j: int|
            0 <= j < i && #[trigger] laced_at(inputs, scalar, j) ==> m <= inputs[j]->Array_0.len(),
    decreases i,
{
    if i > 0 {
        lemma_shortest_bounds(inputs, scalar, (i - 1) as nat);
        if laced_at(inputs, scalar, i - 1) {
        } else {
            assert forall|j: int| 0 <= j < i && #[trigger] laced_at(inputs, scalar, j) implies j < i - 1 by {}
        }
    }
}

/// The shortest list lacing walks is as long as one of the lists on a
/// scalar input: lacing stops at the shortest, not earlier.
pub proof fn lemma_shortest_reached(inputs: Seq<Json>, scalar: Seq<bool>, i: nat)
    requires
        i <= lane_count(inputs, scalar),
    ensures
        shortest_upto(inputs, scalar, i) matches Some(m) ==> exists|j: int|
            0 <= j < i && #[trigger] laced_at(inputs, scalar, j) && m == inputs[j]->Array_0.len(),
    decreases i,
{
    if i > 0 {
        lemma_shortest_reached(inputs, scalar, (i - 1) as nat);
        if let Some(m) = shortest_upto(inputs, scalar, i) {
            let j = i - 1;
            if laced_at(inputs, scalar, j) {
                if let Some(m0) = shortest_upto(inputs, scalar, (i - 1) as nat) {
                    if m != inputs[j]->Array_0.len() {
                        let w = choose|w: int| 0 <= w < i - 1 && #[trigger] laced_at(inputs, scalar, w) && m0 == inputs[w]->Array_0.len();
                        assert(laced_at(inputs, scalar, w) && m == inputs[w]->Array_0.len());
                    }
                }
            } else {
                let w = choose|w: int| 0 <= w < i - 1 && #[trigger] laced_at(inputs, scalar, w) && m == inputs[w]->Array_0.len();
                assert(laced_at(inputs, scalar, w));
            }
        }
    }
}

pub proof fn lemma_row_lower(inputs: Seq<Json>, scalar: Seq<bool>, k: int, i: nat)
    requires
        i <= lane_count(inputs, scalar),
        shortest(inputs, scalar) matches Some(m) && 0 <= k < m,
    ensures
        scalar_height_upto(row(inputs, scalar, k), scalar, i) <= scalar_height_upto(inputs, scalar, i),
        (exists|j: int| 0 <= j < i && #[trigger] laced_at(inputs, scalar, j))
            ==> scalar_height_upto(row(inputs, scalar, k), scalar, i) < scalar_height_upto(inputs, scalar, i),
    decreases i,
{
    lemma_shortest_bounds(inputs, scalar, lane_count(inputs, scalar));
    if i > 0 {
        lemma_row_lower(inputs, scalar, k, (i - 1) as nat);
        let j = i - 1;
        if laced_at(inputs, scalar, j) {
            lemma_item_lower(inputs[j]->Array_0, k);
        }
        if exists|j: int| 0 <= j < i && #[trigger] laced_at(inputs, scalar, j) {
            if !laced_at(inputs, scalar, i - 1) {
                let w = choose|j: int| 0 <= j < i && #[trigger] laced_at(inputs, scalar, j);
                assert(w < i - 1);
            }
        }
    }
}

pub proof fn lemma_row_measure(inputs: Seq<Json>, scalar: Seq<bool>, k: int)
    requires
        shortest(inputs, scalar) matches Some(m) && 0 <= k < m,
    ensures
        scalar_height(row(inputs, scalar, k), scalar) < scalar_height(inputs, scalar),
{
    lemma_shortest_bounds(inputs, scalar, lane_count(inputs, scalar));
    lemma_row_lower(inputs, scalar, k, lane_count(inputs, scalar));
    assert(lane_count(row(inputs, scalar, k), scalar) == lane_count(inputs, scalar));
}

/// `values` stretched or cut to exactly `n` entries, padding with `null`.
pub open spec fn resized(values: Seq<Json>, n: nat) -> Seq<Json> {
    Seq::new(n, |i: int| if i < values.len() { values[i] } else { Json::Null })
}

/// `answer` is what `f` may return when called with arguments modelled by `args`.
pub open spec fn answered<F: Fn(&[Value]) -> Vec<Value>>(f: F, args: Seq<Json>, answer: Seq<Json>) -> bool {
    exists|a: &[Value], r: Vec<Value>|
        #[trigger] call_ensures(f, (a,), r) && json_of_seq(a@) == args && json_of_seq(r@) == answer
}

/// The answers `f` may give, as a relation from arguments to results.
pub open spec fn answers_of<F: Fn(&[Value]) -> Vec<Value>>(f: F) -> spec_fn(Seq<Json>, Seq<Json>) -> bool {
    |args: Seq<Json>, answer: Seq<Json>| answered(f, args, answer)
}

/// `result` is what lacing `inputs` through a call whose possible answers are
/// `answers` gives: one call with every input whole when no list reaches a
/// scalar input; otherwise one laced call per row up to the shortest such
/// list, the `outputs` results each gathered into a list with one element per row.
pub open spec fn laced(
    answers: spec_fn(Seq<Json>, Seq<Json>) -> bool,
    inputs: Seq<Json>,
    scalar: Seq<bool>,
    outputs: nat,
    result: Seq<Json>,
) -> bool
    decreases scalar_height(inputs, scalar),
    via laced_decreases
{
    match shortest(inputs, scalar) {
        None => exists|answer: Seq<Json>| answers(inputs, answer) && result == resized(answer, outputs),
        Some(len) => {
            &&& result.len() == outputs
            &&& forall|j: int| 0 <= j < outputs ==> (#[trigger] result[j] is Array && result[j]->Array_0.len() == len)
            &&& forall|k: int| 0 <= k < len ==> laced(answers, #[trigger] row(inputs, scalar, k), scalar, outputs, column_row(result, k))
        }
    }
}

#[via_fn]
proof fn laced_decreases(
    answers: spec_fn(Seq<Json>, Seq<Json>) -> bool,
    inputs: Seq<Json>,
    scalar: Seq<bool>,
    outputs: nat,
    result: Seq<Json>,
) {
    if let Some(len) = shortest(inputs, scalar) {
        assert forall|k: int| 0 <= k < len implies scalar_height(#[trigger] row(inputs, scalar, k), scalar) < scalar_height(inputs, scalar) by {
            lemma_row_measure(inputs, scalar, k);
        }
    }
}

/// Lacing through a call keeps its shape when every answer it may give is
/// also an answer of another: the result is laced through that one too.
pub proof fn lemma_laced_weaken(
    p: spec_fn(Seq<Json>, Seq<Json>) -> bool,
    q: spec_fn(Seq<Json>, Seq<Json>) -> bool,
    inputs: Seq<Json>,
    scalar: Seq<bool>,
    outputs: nat,
    result: Seq<Json>,
)
    requires
        laced(p, inputs, scalar, outputs, result),
        forall|args: Seq<Json>, answer: Seq<Json>| #[trigger] p(args, answer) ==> q(args, answer),
    ensures
        laced(q, inputs, scalar, outputs, result),
    decreases scalar_height(inputs, scalar),
{
    if let Some(len) = shortest(inputs, scalar) {
        assert forall|k: int| 0 <= k < len implies laced(q, #[trigger] row(inputs, scalar, k), scalar, outputs, column_row(result, k)) by {
            lemma_row_measure(inputs, scalar, k);
            lemma_laced_weaken(p, q, row(inputs, scalar, k), scalar, outputs, column_row(result, k));
        }
    } else {
        let answer = choose|answer: Seq<Json>| p(inputs, answer) && result == resized(answer, outputs);
        assert(q(inputs, answer));
    }
}

/// A relation that gives at most one answer for each argument list.
pub open spec fn functional(answers: spec_fn(Seq<Json>, Seq<Json>) -> bool) -> bool {
    forall|args: Seq<Json>, x: Seq<Json>, y: Seq<Json>|
        #![trigger answers(args, x), answers(args, y)]
        answers(args, x) && answers(args, y) ==> x == y
}

/// Lacing through a call that answers each argument list in one way gives
/// one result.
pub proof fn lemma_laced_unique(
    answers: spec_fn(Seq<Json>, Seq<Json>) -> bool,
    inputs: Seq<Json>,
    scalar: Seq<bool>,
    outputs: nat,
    r1: Seq<Json>,
    r2: Seq<Json>,
)
    requires
        laced(answers, inputs, scalar, outputs, r1),
        laced(answers, inputs, scalar, outputs, r2),
        functional(answers),
    ensures
        r1 == r2,
    decreases scalar_height(inputs, scalar),
{
    match shortest(inputs, scalar) {
        None => {
            let a1 = choose|a: Seq<Json>| answers(inputs, a) && r1 == resized(a, outputs);
            let a2 = choose|a: Seq<Json>| answers(inputs, a) && r2 == resized(a, outputs);
            assert(a1 == a2);
        },
        Some(len) => {
            assert forall|k: int| 0 <= k < len implies column_row(r1, k) == column_row(r2, k) by {
                lemma_row_measure(inputs, scalar, k);
                assert(laced(answers, row(inputs, scalar, k), scalar, outputs, column_row(r1, k)));
                assert(laced(answers, row(inputs, scalar, k), scalar, outputs, column_row(r2, k)));
                lemma_laced_unique(answers, row(inputs, scalar, k), scalar, outputs, column_row(r1, k), column_row(r2, k));
            }
            assert forall|j: int| 0 <= j < outputs implies r1[j] == r2[j] by {
                assert(r1[j] is Array && r2[j] is Array);
                assert forall|k: int| 0 <= k < len implies r1[j]->Array_0[k] == r2[j]->Array_0[k] by {
                    assert(column_row(r1, k)[j] == column_row(r2, k)[j]);
                }
                assert(r1[j]->Array_0 =~= r2[j]->Array_0);
            }
            assert(r1 =~= r2);
        },
    }
}

/// Element `k` of each of the lists in `columns`.
pub open spec fn column_row(columns: Seq<Json>, k: int) -> Seq<Json> {
    Seq::new(columns.len(), |j: int| columns[j]->Array_0[k])
}

} // verus!

verus! {

/// Runs `f` once per element when a `scalar` input receives a list.
///
/// Lists on scalar inputs are walked in step, stopping at the shortest; other
/// inputs are passed whole to every call. Nested lists recurse, so a list of
/// lists maps element by element too. Returns `outputs` values, each a list
/// when lacing happened.
pub fn lace<F: Fn(&[Value]) -> Vec<Value>>(
    inputs: &[Value],
    scalar: &[bool],
    outputs: usize,
    f: &F,
) -> (result: Vec<Value>)
    requires
        forall|a: &[Value]| call_requires(*f, (a,)),
    ensures
        result@.len() == outputs,
        laced(answers_of(*f), json_of_seq(inputs@), scalar@, outputs as nat, json_of_seq(result@)),
    decreases scalar_height(json_of_seq(inputs@), scalar@),
{
    let ghost ins = json_of_seq(inputs@);
    let ghost sc = scalar@;
    let n: usize = if inputs.len() < scalar.len() { inputs.len() } else { scalar.len() };
    let mut shortest_len: Option<usize> = None;
    let mut i: usize = 0;
    while i < n
        invariant
            n == lane_count(ins, sc),
            ins == json_of_seq(inputs@),
            sc == scalar@,
            i <= n,
            match shortest_len {
                Some(m) => shortest_upto(ins, sc, i as nat) == Some(m as nat),
                None => shortest_upto(ins, sc, i as nat) is None,
            },
        decreases n - i,
    {
        assert(ins[i as int] == json_of(inputs@[i as int]));
        if scalar[i] {
            match &inputs[i] {
                Value::Array(items) => {
                    let len = items.len();
                    assert(laced_at(ins, sc, i as int));
                    assert(ins[i as int]->Array_0.len() == len);
                    shortest_len = match shortest_len {
                        Some(m) => Some(if m < len { m } else { len }),
                        None => Some(len),
                    };
                },
                _ => {
                    assert(!laced_at(ins, sc, i as int));
                },
            }
        }
        i += 1;
    }
    match shortest_len {
        None => {
            let mut result = f(inputs);
            let ghost answer = json_of_seq(result@);
            assert(call_ensures(*f, (inputs,), result));
            assert(answered(*f, ins, answer));
            result.resize(outputs, Value::Null);
            assert(json_of_seq(result@) =~= resized(answer, outputs as nat));
            assert(shortest(ins, sc) is None);
            assert(answered(*f, ins, answer) && json_of_seq(result@) == resized(answer, outputs as nat));
            assert(answers_of(*f)(ins, answer));
            assert(laced(answers_of(*f), ins, sc, outputs as nat, json_of_seq(result@)));
            result
        },
        Some(len) => {
            proof {
                lemma_shortest_bounds(ins, sc, n as nat);
            }
            let mut columns: Vec<Vec<Value>> = Vec::new();
            let mut j: usize = 0;
            while j < outputs
                invariant
                    j <= outputs,
                    columns@.len() == j,
                    forall|c: int| 0 <= c < j ==> (#[trigger] columns@[c])@.len() == 0,
                decreases outputs - j,
            {
                columns.push(Vec::new());
                j += 1;
            }
            let mut k: usize = 0;
            while k < len
                invariant
                    n == lane_count(ins, sc),
                    ins == json_of_seq(inputs@),
                    sc == scalar@,
                    shortest(ins, sc) == Some(len as nat),
                    forall|a: &[Value]| call_requires(*f, (a,)),
                    forall|x: int|
                        0 <= x < n && #[trigger] laced_at(ins, sc, x) ==> len <= ins[x]->Array_0.len(),
                    k <= len,
                    columns@.len() == outputs,
                    forall|c: int| 0 <= c < outputs ==> (#[trigger] columns@[c])@.len() == k,
                    forall|r: int|
                        0 <= r < k ==> laced(
                            answers_of(*f),
                            #[trigger] row(ins, sc, r),
                            sc,
                            outputs as nat,
                            Seq::new(outputs as nat, |c: int| json_of(columns@[c]@[r])),
                        ),
                decreases len - k,
            {
                let mut items: Vec<Value> = Vec::new();
                let mut x: usize = 0;
                while x < n
                    invariant
                        n == lane_count(ins, sc),
                        ins == json_of_seq(inputs@),
                        sc == scalar@,
                        k < len,
                        forall|y: int|
                            0 <= y < n && #[trigger] laced_at(ins, sc, y) ==> len <= ins[y]->Array_0.len(),
                        x <= n,
                        items@.len() == x,
                        forall|y: int| 0 <= y < x ==> json_of(#[trigger] items@[y]) == row(ins, sc, k as int)[y],
                    decreases n - x,
                {
                    let item = match &inputs[x] {
                        Value::Array(list) => {
                            if scalar[x] {
                                assert(laced_at(ins, sc, x as int));
                                assert(json_of_seq(list@)[k as int] == json_of(list@[k as int]));
                                list[k].clone()
                            } else {
                                inputs[x].clone()
                            }
                        },
                        other => other.clone(),
                    };
                    items.push(item);
                    x += 1;
                }
                assert(json_of_seq(items@) =~= row(ins, sc, k as int));
                proof {
                    lemma_row_measure(ins, sc, k as int);
                }
                let sub = lace(items.as_slice(), scalar, outputs, f);
                let ghost old_columns = columns@;
                let mut c: usize = 0;
                while c < outputs
                    invariant
                        sub@.len() == outputs,
                        columns@.len() == outputs,
                        c <= outputs,
                        old_columns.len() == outputs,
                        forall|d: int| 0 <= d < outputs ==> (#[trigger] old_columns[d])@.len() == k,
                        forall|d: int| 0 <= d < c ==> (#[trigger] columns@[d])@.len() == k + 1,
                        forall|d: int| 0 <= d < c ==> (#[trigger] columns@[d])@.subrange(0, k as int) == old_columns[d]@,
                        forall|d: int| 0 <= d < c ==> json_of((#[trigger] columns@[d])@[k as int]) == json_of(sub@[d]),
                        forall|d: int| c <= d < outputs ==> #[trigger] columns@[d] == old_columns[d],
                    decreases outputs - c,
                {
                    let value = sub[c].clone();
                    columns[c].push(value);
                    assert(columns@[c as int]@.subrange(0, k as int) =~= old_columns[c as int]@);
                    c += 1;
                }
                assert(Seq::new(outputs as nat, |c: int| json_of(columns@[c]@[k as int])) =~= json_of_seq(sub@));
                assert forall|r: int|
                    0 <= r < k + 1 implies laced(
                        answers_of(*f),
                        #[trigger] row(ins, sc, r),
                        sc,
                        outputs as nat,
                        Seq::new(outputs as nat, |c: int| json_of(columns@[c]@[r])),
                    ) by {
                    if r < k {
                        assert forall|c: int| 0 <= c < outputs implies #[trigger] columns@[c]@[r] == old_columns[c]@[r] by {
                            assert(columns@[c]@.subrange(0, k as int)[r] == columns@[c]@[r]);
                        }
                        assert(Seq::new(outputs as nat, |c: int| json_of(columns@[c]@[r])) =~= Seq::new(
                            outputs as nat,
                            |c: int| json_of(old_columns[c]@[r]),
                        ));
                    }
                }
                k += 1;
            }
            let mut result: Vec<Value> = Vec::new();
            let ghost all_columns = columns@;
            while columns.len() > 0
                invariant
                    all_columns.len() == outputs,
                    result@.len() + columns@.len() == outputs,
                    forall|c: int| 0 <= c < columns@.len() ==> #[trigger] columns@[c] == all_columns[c + result@.len()],
                    forall|c: int| 0 <= c < result@.len() ==> #[trigger] result@[c] == Value::Array(all_columns[c]),
                decreases columns.len(),
            {
                let column = columns.remove(0);
                result.push(Value::Array(column));
            }
            let ghost model = json_of_seq(result@);
            assert forall|c: int| 0 <= c < outputs implies (#[trigger] model[c] is Array && model[c]->Array_0.len() == len) by {
                assert(result@[c] == Value::Array(all_columns[c]));
                assert(all_columns[c]@.len() == len);
                assert(model[c] == Json::Array(json_of_seq(all_columns[c]@)));
            }
            assert forall|r: int| 0 <= r < len implies column_row(model, r) =~= Seq::new(
                outputs as nat,
                |c: int| json_of(all_columns[c]@[r]),
            ) by {
                assert forall|c: int| 0 <= c < outputs implies #[trigger] model[c] == Json::Array(json_of_seq(all_columns[c]@)) by {
                    assert(result@[c] == Value::Array(all_columns[c]));
                }
            }
            result
        },
    }
}

} // verus!

verus! {

/// Whether a number is other than zero (a float is zero at both signs).
pub open spec fn nonzero(n: Number) -> bool {
    match n {
        Number::PosInt(u) => u != 0,
        Number::NegInt(i) => i != 0,
        Number::Float(bits) => bits & 0x7fff_ffff_ffff_ffff != 0,
    }
}

/// The truth value a word stands for.
pub open spec fn word_truth(w: Seq<char>) -> Option<bool> {
    if w == seq!['t', 'r', 'u', 'e'] || w == seq!['y', 'e', 's'] || w == seq!['1'] {
        Some(true)
    } else if w == seq!['f', 'a', 'l', 's', 'e'] || w == seq!['n', 'o'] || w == seq!['0'] {
        Some(false)
    } else {
        None
    }
}

/// The boolean a value reads as.
pub open spec fn boolean_of(v: Json) -> Option<bool> {
    match v {
        Json::Bool(b) => Some(b),
        Json::Number(n) => Some(nonzero(n)),
        Json::String(s) => word_truth(ascii_lowered(trimmed(s))),
        _ => None,
    }
}

/// The items a value reads as when a list is expected.
pub open spec fn list_of(v: Json) -> Seq<Json> {
    match v {
        Json::Array(items) => items,
        Json::Null => Seq::empty(),
        other => seq![other],
    }
}

/// The items a valid value reads as are valid.
pub proof fn lemma_list_of_valid(v: Json)
    requires
        valid(v),
    ensures
        forall|i: int| 0 <= i < list_of(v).len() ==> valid(#[trigger] list_of(v)[i]),
{
}

/// A boolean, from a boolean, a number (non-zero) or `true`/`yes`/`1` text.
pub fn boolean(value: &Value) -> (r: Option<bool>)
    ensures
        r == boolean_of(value@),
{
    match value {
        Value::Bool(b) => Some(*b),
        Value::Number(n) => Some(
            match n {
                Number::PosInt(u) => *u != 0,
                Number::NegInt(i) => *i != 0,
                Number::Float(bits) => *bits & 0x7fff_ffff_ffff_ffff != 0,
            },
        ),
        Value::String(s) => {
            let word = to_ascii_lowercase(trim(s.as_str()));
            let w = word.as_str();
            proof {
                reveal_strlit("true");
                reveal_strlit("yes");
                reveal_strlit("1");
                reveal_strlit("false");
                reveal_strlit("no");
                reveal_strlit("0");
                assert("true"@ =~= seq!['t', 'r', 'u', 'e']);
                assert("yes"@ =~= seq!['y', 'e', 's']);
                assert("1"@ =~= seq!['1']);
                assert("false"@ =~= seq!['f', 'a', 'l', 's', 'e']);
                assert("no"@ =~= seq!['n', 'o']);
                assert("0"@ =~= seq!['0']);
            }
            if str_eq(w, "true") || str_eq(w, "yes") || str_eq(w, "1") {
                Some(true)
            } else if str_eq(w, "false") || str_eq(w, "no") || str_eq(w, "0") {
                Some(false)
            } else {
                None
            }
        },
        _ => None,
    }
}

/// The items of a list; a single value is a one-item list, `null` none.
pub fn list(value: &Value) -> (r: Vec<Value>)
    ensures
        json_of_seq(r@) == list_of(value@),
{
    match value {
        Value::Array(items) => clone_values(items),
        Value::Null => Vec::new(),
        other => {
            let mut r = Vec::new();
            r.push(other.clone());
            assert(json_of_seq(r@) =~= seq![value@]);
            r
        },
    }
}

} // verus!
