//! What holds of the list and text operations, whatever their inputs.
use vstd::prelude::*;
use crate::ops::{chunks, found_at, index_of, joined, leaves, replaced, mask_split, name_char, narrowest, present, replacement, scanned, split_from, substituted, transposed};
use crate::strings::ascii_alphanumeric;
use crate::value::{boolean_of, Json};

verus! {

/// When every mask element reads as true, every item is kept, in order.
pub proof fn lemma_mask_all_true(items: Seq<Json>, mask: Seq<Json>, n: nat)
    requires
        n <= items.len(),
        n <= mask.len(),
        forall|i: int| 0 <= i < n ==> boolean_of(#[trigger] mask[i]) == Some(true),
    ensures
        mask_split(items, mask, n).0 == items.take(n as int),
        mask_split(items, mask, n).1 == Seq::<Json>::empty(),
    decreases n,
{
    if n > 0 {
        lemma_mask_all_true(items, mask, (n - 1) as nat);
        assert(boolean_of(mask[n - 1]) == Some(true));
        assert(items.take(n - 1).push(items[n - 1]) =~= items.take(n as int));
    } else {
        assert(items.take(0) =~= Seq::<Json>::empty());
    }
}

/// When no mask element reads as true, no item is kept: all go to the others.
pub proof fn lemma_mask_none_true(items: Seq<Json>, mask: Seq<Json>, n: nat)
    requires
        n <= items.len(),
        n <= mask.len(),
        forall|i: int| 0 <= i < n ==> boolean_of(#[trigger] mask[i]) != Some(true),
    ensures
        mask_split(items, mask, n).0 == Seq::<Json>::empty(),
        mask_split(items, mask, n).1 == items.take(n as int),
    decreases n,
{
    if n > 0 {
        lemma_mask_none_true(items, mask, (n - 1) as nat);
        assert(boolean_of(mask[n - 1]) != Some(true));
        assert(items.take(n - 1).push(items[n - 1]) =~= items.take(n as int));
    } else {
        assert(items.take(0) =~= Seq::<Json>::empty());
    }
}

/// Every item looked at goes to exactly one side.
pub proof fn lemma_mask_sizes(items: Seq<Json>, mask: Seq<Json>, n: nat)
    ensures
        mask_split(items, mask, n).0.len() + mask_split(items, mask, n).1.len() == n,
    decreases n,
{
    if n > 0 {
        lemma_mask_sizes(items, mask, (n - 1) as nat);
    }
}

/// The total length of some texts.
pub open spec fn total_len(texts: Seq<Seq<char>>) -> nat
    decreases texts.len(),
{
    if texts.len() == 0 {
        0
    } else {
        total_len(texts.drop_last()) + texts.last().len()
    }
}

/// Joining `n >= 1` texts writes the separator exactly `n - 1` times, empty
/// texts included: the result is as long as the texts together plus
/// `n - 1` separators.
pub proof fn lemma_joined_len(texts: Seq<Seq<char>>, separator: Seq<char>)
    requires
        texts.len() >= 1,
    ensures
        joined(texts, separator).len() == total_len(texts) + (texts.len() - 1) * separator.len(),
    decreases texts.len(),
{
    if texts.len() == 1 {
        assert(texts.drop_last().len() == 0);
    } else {
        lemma_joined_len(texts.drop_last(), separator);
        let n = texts.len() as int;
        let s = separator.len() as int;
        assert((n - 2) * s + s == (n - 1) * s) by (nonlinear_arith);
    }
}

/// Joining two non-empty runs of texts is joining each and putting one
/// separator between them.
pub proof fn lemma_joined_concat(a: Seq<Seq<char>>, b: Seq<Seq<char>>, separator: Seq<char>)
    requires
        a.len() >= 1,
        b.len() >= 1,
    ensures
        joined(a + b, separator) == joined(a, separator) + separator + joined(b, separator),
    decreases b.len(),
{
    if b.len() == 1 {
        assert((a + b).drop_last() =~= a);
        assert((a + b).last() == b[0]);
    } else {
        lemma_joined_concat(a, b.drop_last(), separator);
        assert((a + b).drop_last() =~= a + b.drop_last());
        assert((a + b).last() == b.last());
    }
}

/// A variable among `a`..`d` stands for its value in parentheses.
proof fn lemma_variable_replacement(x: char, values: Seq<Seq<char>>)
    requires
        'a' <= x <= 'd',
    ensures
        replacement(seq![x], values) == seq!['('] + values[x as int - 'a' as int] + seq![')'],
{
    if x == 'a' {
        assert(seq![x] =~= seq!['a']);
    } else if x == 'b' {
        assert(seq![x] =~= seq!['b']);
        assert(seq![x] != seq!['a']) by { assert(seq![x][0] != seq!['a'][0]); }
    } else if x == 'c' {
        assert(seq![x] =~= seq!['c']);
        assert(seq![x] != seq!['a']) by { assert(seq![x][0] != seq!['a'][0]); }
        assert(seq![x] != seq!['b']) by { assert(seq![x][0] != seq!['b'][0]); }
    } else {
        assert(x == 'd');
        assert(seq![x] =~= seq!['d']);
        assert(seq![x] != seq!['a']) by { assert(seq![x][0] != seq!['a'][0]); }
        assert(seq![x] != seq!['b']) by { assert(seq![x][0] != seq!['b'][0]); }
        assert(seq![x] != seq!['c']) by { assert(seq![x][0] != seq!['c'][0]); }
    }
}

/// A binary formula `x op y` of two variables among `a`..`d` and an operator
/// character (ASCII, neither letter, digit, `_` nor `.`) becomes `(vx) op (vy)`.
pub proof fn lemma_substitute_binary(x: char, op: char, y: char, values: Seq<Seq<char>>)
    requires
        'a' <= x <= 'd',
        'a' <= y <= 'd',
        (op as u32) < 0x80,
        !ascii_alphanumeric(op),
        op != '_',
        op != '.',
    ensures
        substituted(seq![x, op, y], values) == seq!['('] + values[x as int - 'a' as int] + seq![')', op, '(']
            + values[y as int - 'a' as int] + seq![')'],
{
    let e = seq![x, op, y];
    let vx = values[x as int - 'a' as int];
    let vy = values[y as int - 'a' as int];
    lemma_variable_replacement(x, values);
    lemma_variable_replacement(y, values);
    assert(name_char(x, false) && name_char(y, false) && !name_char(op, true));
    assert(seq![x].drop_last() =~= Seq::<char>::empty());
    assert(seq![x].last() == x);
    assert(scanned(Seq::<char>::empty(), values) == (Seq::<char>::empty(), Seq::<char>::empty()));
    assert(Seq::<char>::empty().push(x) =~= seq![x]);
    assert(scanned(seq![x], values) == (Seq::<char>::empty(), seq![x]));
    assert(seq![x, op].drop_last() =~= seq![x]);
    let w1 = Seq::<char>::empty() + replacement(seq![x], values) + seq![op];
    assert(scanned(seq![x, op], values) == (w1, Seq::<char>::empty()));
    assert(e.drop_last() =~= seq![x, op]);
    assert(Seq::<char>::empty().push(y) =~= seq![y]);
    assert(scanned(e, values) == (w1, seq![y]));
    assert(w1 + replacement(seq![y], values) =~= seq!['('] + vx + seq![')', op, '('] + vy + seq![')']);
}

/// The narrowest row is as long as some row.
proof fn lemma_narrowest_reached(rows: Seq<Seq<Json>>)
    requires
        rows.len() >= 1,
    ensures
        exists|r: int| 0 <= r < rows.len() && narrowest(rows) == #[trigger] rows[r].len(),
    decreases rows.len(),
{
    if rows.len() == 1 {
        assert(narrowest(rows) == rows[0].len());
    } else {
        lemma_narrowest_reached(rows.drop_last());
        let r = choose|r: int| 0 <= r < rows.drop_last().len() && narrowest(rows.drop_last()) == #[trigger] rows.drop_last()[r].len();
        assert(rows.drop_last()[r] == rows[r]);
        assert(rows.last() == rows[rows.len() - 1]);
    }
}

/// Transposing one or more rows gives as many columns as the shortest row is
/// long, column `k` listing item `k` of every row.
pub proof fn lemma_transpose_columns(rows: Seq<Seq<Json>>)
    requires
        rows.len() >= 1,
    ensures
        transposed(rows) is Array,
        forall|r: int| 0 <= r < rows.len() ==> transposed(rows)->Array_0.len() <= #[trigger] rows[r].len(),
        exists|r: int| 0 <= r < rows.len() && transposed(rows)->Array_0.len() == #[trigger] rows[r].len(),
        forall|k: int, r: int|
            0 <= k < transposed(rows)->Array_0.len() && 0 <= r < rows.len() ==> {
                &&& #[trigger] transposed(rows)->Array_0[k] is Array
                &&& transposed(rows)->Array_0[k]->Array_0.len() == rows.len()
                &&& transposed(rows)->Array_0[k]->Array_0[r] == #[trigger] rows[r][k]
            },
{
    crate::ops::lemma_narrowest(rows);
    lemma_narrowest_reached(rows);
}

/// The items of a run of lists, one list after another.
pub open spec fn concat_lists(lists: Seq<Json>) -> Seq<Json>
    decreases lists.len(),
{
    if lists.len() == 0 {
        Seq::empty()
    } else {
        lists[0]->Array_0 + concat_lists(lists.drop_first())
    }
}

/// Chopping a list into pieces of `size` loses and reorders nothing: the
/// pieces, one after another, are the list; each holds one to `size` items,
/// and all but the last hold exactly `size`.
pub proof fn lemma_chop_pieces(items: Seq<Json>, size: nat)
    requires
        size >= 1,
    ensures
        concat_lists(chunks(items, size)) == items,
        forall|i: int| 0 <= i < chunks(items, size).len() ==> {
            &&& (#[trigger] chunks(items, size)[i]) is Array
            &&& 1 <= chunks(items, size)[i]->Array_0.len() <= size
            &&& i < chunks(items, size).len() - 1 ==> chunks(items, size)[i]->Array_0.len() == size
        },
    decreases items.len(),
{
    let c = chunks(items, size);
    if items.len() == 0 {
    } else if items.len() <= size {
        assert(c.drop_first() =~= Seq::<Json>::empty());
        assert(concat_lists(c.drop_first()) == Seq::<Json>::empty());
        assert(c[0] == Json::Array(items));
        assert(items + Seq::<Json>::empty() =~= items);
    } else {
        let rest = items.skip(size as int);
        lemma_chop_pieces(rest, size);
        assert(c.drop_first() =~= chunks(rest, size));
        assert(c[0] == Json::Array(items.take(size as int)));
        assert(concat_lists(c) == items.take(size as int) + concat_lists(chunks(rest, size)));
        assert(items.take(size as int) + rest =~= items);
        assert forall|i: int| 0 <= i < c.len() implies {
            &&& (#[trigger] c[i]) is Array
            &&& 1 <= c[i]->Array_0.len() <= size
            &&& i < c.len() - 1 ==> c[i]->Array_0.len() == size
        } by {
            if i > 0 {
                assert(c[i] == chunks(rest, size)[i - 1]);
            }
        }
    }
}

/// A position counted from the end is the length plus the index: the index
/// a list position stands for lies in the list, is the index itself or the
/// length plus it, and every index from minus the length up to the length
/// stands for one.
pub proof fn lemma_index_position(len: int, i: int)
    requires
        len >= 0,
    ensures
        index_of(len, i) matches Some(x) ==> 0 <= x < len && (x == i || x == len + i),
        0 <= i < len ==> index_of(len, i) == Some(i),
        -len <= i < 0 ==> index_of(len, i) == Some(len + i),
        (i >= len || i < -len) ==> index_of(len, i) is None,
{
}

/// Flattening leaves no list inside: every leaf is a plain value.
pub proof fn lemma_leaves_plain(v: Json)
    ensures
        forall|i: int| 0 <= i < leaves(v).len() ==> !((#[trigger] leaves(v)[i]) is Array),
    decreases v,
{
    match v {
        Json::Array(items) => {
            lemma_leaves_of_plain(items);
        },
        _ => {},
    }
}

proof fn lemma_leaves_of_plain(items: Seq<Json>)
    ensures
        forall|i: int| 0 <= i < crate::ops::leaves_of(items).len() ==> !((#[trigger] crate::ops::leaves_of(items)[i]) is Array),
    decreases items,
{
    if items.len() > 0 {
        lemma_leaves_of_plain(items.drop_last());
        lemma_leaves_plain(items.last());
    }
}

/// A list without lists inside flattens to its own items.
pub proof fn lemma_flatten_flat(items: Seq<Json>)
    requires
        forall|i: int| 0 <= i < items.len() ==> !((#[trigger] items[i]) is Array),
    ensures
        leaves(Json::Array(items)) == items,
    decreases items.len(),
{
    if items.len() > 0 {
        let rest = items.drop_last();
        assert forall|i: int| 0 <= i < rest.len() implies !((#[trigger] rest[i]) is Array) by {
            assert(rest[i] == items[i]);
        }
        lemma_flatten_flat(rest);
        assert(!(items[items.len() - 1] is Array));
        assert(leaves(Json::Array(rest)) == crate::ops::leaves_of(rest));
        assert(leaves(items.last()) == seq![items.last()]);
        assert(crate::ops::leaves_of(items) == crate::ops::leaves_of(rest) + leaves(items.last()));
        assert(rest + seq![items.last()] =~= items);
    } else {
        assert(crate::ops::leaves_of(items) =~= items);
    }
}

/// A list made of items holds no `null`, and items without `null` are kept whole.
pub proof fn lemma_present(items: Seq<Json>)
    ensures
        forall|i: int| 0 <= i < present(items).len() ==> !((#[trigger] present(items)[i]) is Null),
        (forall|i: int| 0 <= i < items.len() ==> !((#[trigger] items[i]) is Null)) ==> present(items) == items,
    decreases items.len(),
{
    broadcast use vstd::seq_lib::group_filter_ensures;
    if forall|i: int| 0 <= i < items.len() ==> !((#[trigger] items[i]) is Null) {
        if items.len() > 0 {
            let rest = items.drop_last();
            assert forall|i: int| 0 <= i < rest.len() implies !((#[trigger] rest[i]) is Null) by {
                assert(rest[i] == items[i]);
            }
            lemma_present(rest);
            rest.lemma_filter_push(items.last(), |v: Json| !(v is Null));
            assert(rest.push(items.last()) =~= items);
            assert(!(items[items.len() - 1] is Null));
        } else {
            assert(present(items) =~= items);
        }
    }
}

/// Splitting never gives an empty list of parts.
proof fn lemma_split_some(s: Seq<char>, sep: Seq<char>, part: Seq<char>)
    ensures
        split_from(s, sep, part).len() >= 1,
    decreases s.len(),
{
    if sep.len() > 0 && s.len() > 0 {
        if found_at(s, sep, 0) {
            lemma_split_some(s.skip(sep.len() as int), sep, Seq::empty());
        } else {
            lemma_split_some(s.drop_first(), sep, part.push(s[0]));
        }
    }
}

/// Joining the parts that splitting at a non-empty separator gives, with
/// that separator, gives back the text (with the part read so far in front).
pub proof fn lemma_split_join(s: Seq<char>, sep: Seq<char>, part: Seq<char>)
    requires
        sep.len() >= 1,
    ensures
        joined(split_from(s, sep, part), sep) == part + s,
    decreases s.len(),
{
    if s.len() == 0 {
        assert(part + s =~= part);
    } else if found_at(s, sep, 0) {
        let rest = s.skip(sep.len() as int);
        lemma_split_join(rest, sep, Seq::empty());
        lemma_split_some(rest, sep, Seq::empty());
        lemma_joined_concat(seq![part], split_from(rest, sep, Seq::empty()), sep);
        assert(joined(seq![part], sep) == part);
        assert(seq![part] + split_from(rest, sep, Seq::empty()) == split_from(s, sep, part));
        assert(Seq::<char>::empty() + rest =~= rest);
        assert(s.subrange(0, sep.len() as int) == sep);
        assert(part + sep + rest =~= part + s) by {
            assert(sep + rest =~= s);
        }
    } else {
        lemma_split_join(s.drop_first(), sep, part.push(s[0]));
        assert(part.push(s[0]) + s.drop_first() =~= part + s);
    }
}

/// Replacing a text that does not occur changes nothing.
pub proof fn lemma_replace_absent(s: Seq<char>, search: Seq<char>, replacement: Seq<char>)
    requires
        forall|i: int| !(#[trigger] found_at(s, search, i)),
    ensures
        replaced(s, search, replacement) == s,
    decreases s.len(),
{
    if search.len() > 0 && s.len() > 0 {
        let rest = s.drop_first();
        assert forall|i: int| !(#[trigger] found_at(rest, search, i)) by {
            if found_at(rest, search, i) {
                assert(s.subrange(i + 1, i + 1 + search.len()) =~= rest.subrange(i, i + search.len()));
                assert(found_at(s, search, i + 1));
            }
        }
        assert(!found_at(s, search, 0));
        lemma_replace_absent(rest, search, replacement);
        assert(seq![s[0]] + rest =~= s);
    }
}

/// Replacing a text by itself changes nothing.
pub proof fn lemma_replace_same(s: Seq<char>, search: Seq<char>)
    ensures
        replaced(s, search, search) == s,
    decreases s.len(),
{
    if search.len() > 0 && s.len() > 0 {
        if found_at(s, search, 0) {
            let rest = s.skip(search.len() as int);
            lemma_replace_same(rest, search);
            assert(s.subrange(0, search.len() as int) == search);
            assert(search + rest =~= s);
        } else {
            lemma_replace_same(s.drop_first(), search);
            assert(seq![s[0]] + s.drop_first() =~= s);
        }
    }
}

} // verus!
