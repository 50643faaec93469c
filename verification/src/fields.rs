//! Named values of a node: its parameters and its outputs.
use vstd::prelude::*;
use crate::strings::{str_eq, str_less, text_less, lemma_text_less_irreflexive, lemma_text_less_transitive, lemma_text_less_total};
use crate::value::{Json, Value, json_of, json_of_entries, json_of_seq, clone_entries};

verus! {

/// Keys strictly increasing in code-point order: sorted, no key twice.
pub open spec fn sorted_keys(s: Seq<(Seq<char>, Json)>) -> bool {
    forall|i: int, j: int| 0 <= i < j < s.len() ==> text_less(#[trigger] s[i].0, #[trigger] s[j].0)
}

/// The map that a listing of entries stands for.
pub open spec fn map_of(s: Seq<(Seq<char>, Json)>) -> Map<Seq<char>, Json> {
    Map::new(
        |k: Seq<char>| exists|i: int| 0 <= i < s.len() && #[trigger] s[i].0 == k,
        |k: Seq<char>| s[key_index(s, k)].1,
    )
}

/// Where `k` is listed in `s`.
pub open spec fn key_index(s: Seq<(Seq<char>, Json)>, k: Seq<char>) -> int {
    choose|i: int| 0 <= i < s.len() && #[trigger] s[i].0 == k
}

pub proof fn lemma_sorted_unique(s: Seq<(Seq<char>, Json)>, i: int, j: int)
    requires
        sorted_keys(s),
        0 <= i < s.len(),
        0 <= j < s.len(),
        s[i].0 == s[j].0,
    ensures
        i == j,
{
    if i < j {
        assert(text_less(s[i].0, s[j].0));
        lemma_text_less_irreflexive(s[i].0);
    } else if j < i {
        assert(text_less(s[j].0, s[i].0));
        lemma_text_less_irreflexive(s[i].0);
    }
}

pub proof fn lemma_map_of_at(s: Seq<(Seq<char>, Json)>, i: int)
    requires
        sorted_keys(s),
        0 <= i < s.len(),
    ensures
        map_of(s).contains_key(s[i].0),
        map_of(s)[s[i].0] == s[i].1,
{
    let k = s[i].0;
    assert(exists|x: int| 0 <= x < s.len() && #[trigger] s[x].0 == k);
    let c = key_index(s, k);
    lemma_sorted_unique(s, i, c);
    assert(map_of(s).contains_key(k));
    assert(map_of(s)[k] == s[c].1);
}

pub proof fn lemma_update(s: Seq<(Seq<char>, Json)>, i: int, v: Json)
    requires
        sorted_keys(s),
        0 <= i < s.len(),
    ensures
        sorted_keys(s.update(i, (s[i].0, v))),
        map_of(s.update(i, (s[i].0, v))) == map_of(s).insert(s[i].0, v),
{
    let k = s[i].0;
    let t = s.update(i, (k, v));
    assert forall|a: int, b: int| 0 <= a < b < t.len() implies text_less(#[trigger] t[a].0, #[trigger] t[b].0) by {
        assert(t[a].0 == s[a].0 && t[b].0 == s[b].0);
    }
    assert forall|key: Seq<char>| map_of(t).contains_key(key) <==> map_of(s).insert(k, v).contains_key(key) by {
        if map_of(s).contains_key(key) {
            let x = key_index(s, key);
            assert(t[x].0 == key);
        }
        if map_of(t).contains_key(key) {
            let x = key_index(t, key);
            assert(s[x].0 == key);
        }
    }
    assert forall|key: Seq<char>| #[trigger] map_of(t).contains_key(key) implies map_of(t)[key] == map_of(s).insert(k, v)[key] by {
        let x = key_index(t, key);
        lemma_map_of_at(t, x);
        if x != i {
            assert(s[x] == t[x]);
            lemma_map_of_at(s, x);
            if key == k {
                lemma_sorted_unique(s, x, i);
            }
        }
    }
    assert(map_of(t) =~= map_of(s).insert(k, v));
}

pub proof fn lemma_insert(s: Seq<(Seq<char>, Json)>, i: int, k: Seq<char>, v: Json)
    requires
        sorted_keys(s),
        0 <= i <= s.len(),
        forall|j: int| 0 <= j < i ==> text_less(#[trigger] s[j].0, k),
        forall|j: int| i <= j < s.len() ==> text_less(k, #[trigger] s[j].0),
    ensures
        sorted_keys(s.insert(i, (k, v))),
        map_of(s.insert(i, (k, v))) == map_of(s).insert(k, v),
{
    let t = s.insert(i, (k, v));
    assert forall|a: int, b: int| 0 <= a < b < t.len() implies text_less(#[trigger] t[a].0, #[trigger] t[b].0) by {
        if a < i && b < i {
        } else if a < i && b == i {
        } else if a < i {
            assert(t[b] == s[b - 1]);
            lemma_text_less_transitive(s[a].0, k, s[b - 1].0);
        } else if a == i {
            assert(t[b] == s[b - 1]);
        } else {
            assert(t[a] == s[a - 1] && t[b] == s[b - 1]);
        }
    }
    assert forall|key: Seq<char>| map_of(t).contains_key(key) <==> map_of(s).insert(k, v).contains_key(key) by {
        if map_of(s).contains_key(key) {
            let x = key_index(s, key);
            if x < i {
                assert(t[x].0 == key);
            } else {
                assert(t[x + 1].0 == key);
            }
        }
        if key == k {
            assert(t[i].0 == key);
        }
        if map_of(t).contains_key(key) {
            let x = key_index(t, key);
            if x < i {
                assert(s[x].0 == key);
            } else if x > i {
                assert(s[x - 1].0 == key);
            }
        }
    }
    assert forall|key: Seq<char>| #[trigger] map_of(t).contains_key(key) implies map_of(t)[key] == map_of(s).insert(k, v)[key] by {
        let x = key_index(t, key);
        lemma_map_of_at(t, x);
        if x < i {
            assert(s[x] == t[x]);
            lemma_map_of_at(s, x);
            lemma_text_less_irreflexive(k);
        } else if x > i {
            assert(s[x - 1] == t[x]);
            lemma_map_of_at(s, x - 1);
            lemma_text_less_irreflexive(k);
        }
    }
    assert(map_of(t) =~= map_of(s).insert(k, v));
}

/// A map from field names to values, listed in name order.
#[derive(Debug)]
pub struct Fields {
    entries: Vec<(String, Value)>,
}

impl Fields {
    /// The entries, in name order.
    pub closed spec fn listing(&self) -> Seq<(Seq<char>, Json)> {
        json_of_entries(self.entries@)
    }

    #[verifier::type_invariant]
    spec fn well_formed(&self) -> bool {
        sorted_keys(json_of_entries(self.entries@))
    }

    pub fn new() -> (r: Self)
        ensures
            r.listing() == Seq::<(Seq<char>, Json)>::empty(),
            r@ == Map::<Seq<char>, Json>::empty(),
    {
        let r = Fields { entries: Vec::new() };
        assert(r.listing() =~= Seq::<(Seq<char>, Json)>::empty());
        assert(r@ =~= Map::<Seq<char>, Json>::empty());
        r
    }

    pub fn len(&self) -> (r: usize)
        ensures
            r == self.listing().len(),
    {
        self.entries.len()
    }

    /// The entries, in name order.
    pub fn entries(&self) -> (r: &[(String, Value)])
        ensures
            json_of_entries(r@) == self.listing(),
            sorted_keys(self.listing()),
            self@ == map_of(self.listing()),
    {
        proof { use_type_invariant(self); }
        self.entries.as_slice()
    }

    /// Where `key` stands, or where it would be inserted.
    fn locate(&self, key: &str) -> (r: (usize, bool))
        ensures
            r.0 <= self.listing().len(),
            forall|i: int| 0 <= i < r.0 ==> text_less(#[trigger] self.listing()[i].0, key@),
            r.1 <==> (r.0 < self.listing().len() && self.listing()[r.0 as int].0 == key@),
            !r.1 ==> forall|i: int| r.0 <= i < self.listing().len() ==> text_less(key@, #[trigger] self.listing()[i].0),
    {
        proof { use_type_invariant(self); }
        let ghost s = self.listing();
        let mut i: usize = 0;
        while i < self.entries.len() && str_less(self.entries[i].0.as_str(), key)
            invariant
                s == json_of_entries(self.entries@),
                sorted_keys(s),
                i <= self.entries@.len(),
                forall|j: int| 0 <= j < i ==> text_less(#[trigger] s[j].0, key@),
            decreases self.entries@.len() - i,
        {
            i += 1;
        }
        if i < self.entries.len() {
            let found = str_eq(self.entries[i].0.as_str(), key);
            proof {
                if !found {
                    assert(!text_less(s[i as int].0, key@));
                    lemma_text_less_total(s[i as int].0, key@);
                    assert forall|j: int| i <= j < s.len() implies text_less(key@, #[trigger] s[j].0) by {
                        if j > i {
                            assert(text_less(s[i as int].0, s[j].0));
                            lemma_text_less_transitive(key@, s[i as int].0, s[j].0);
                        }
                    }
                }
            }
            (i, found)
        } else {
            (i, false)
        }
    }

    /// The value of `key`, if present.
    pub fn get(&self, key: &str) -> (r: Option<&Value>)
        ensures
            r is Some <==> self@.contains_key(key@),
            r matches Some(v) ==> v@ == self@[key@],
    {
        proof { use_type_invariant(self); }
        let (i, found) = self.locate(key);
        let ghost s = self.listing();
        if found {
            proof { lemma_map_of_at(s, i as int); }
            assert(json_of_entries(self.entries@)[i as int].1 == json_of(self.entries@[i as int].1));
            Some(&self.entries[i].1)
        } else {
            assert forall|j: int| 0 <= j < s.len() implies #[trigger] s[j].0 != key@ by {
                if j < i {
                    lemma_text_less_irreflexive(key@);
                } else {
                    lemma_text_less_irreflexive(key@);
                }
            }
            None
        }
    }

    /// Sets `key` to `value`, replacing the value it had.
    pub fn insert(&mut self, key: String, value: Value)
        ensures
            final(self)@ == old(self)@.insert(key@, value@),
    {
        proof { use_type_invariant(&*self); }
        let (i, found) = self.locate(key.as_str());
        let ghost s = self.listing();
        let mut entries: Vec<(String, Value)> = Vec::new();
        std::mem::swap(&mut entries, &mut self.entries);
        let ghost kv = (key@, value@);
        if found {
            entries.set(i, (key, value));
            proof { lemma_update(s, i as int, kv.1); }
            assert(json_of_entries(entries@) =~= s.update(i as int, kv));
        } else {
            entries.insert(i, (key, value));
            proof { lemma_insert(s, i as int, kv.0, kv.1); }
            assert(json_of_entries(entries@) =~= s.insert(i as int, kv));
        }
        self.entries = entries;
    }

    /// Appends `value` to the list held by `key`, starting the list when
    /// `key` is absent; a value that is not a list is left as it is.
    pub fn push_item(&mut self, key: String, value: Value)
        ensures
            final(self)@ == if old(self)@.contains_key(key@) {
                match old(self)@[key@] {
                    Json::Array(items) => old(self)@.insert(key@, Json::Array(items.push(value@))),
                    _ => old(self)@,
                }
            } else {
                old(self)@.insert(key@, Json::Array(seq![value@]))
            },
    {
        proof { use_type_invariant(&*self); }
        let (i, found) = self.locate(key.as_str());
        let ghost s = self.listing();
        let mut entries: Vec<(String, Value)> = Vec::new();
        std::mem::swap(&mut entries, &mut self.entries);
        if found {
            proof { lemma_map_of_at(s, i as int); }
            let (k, current) = entries.remove(i);
            let ghost before = current@;
            let updated = match current {
                Value::Array(mut items) => {
                    let ghost old_items = items@;
                    items.push(value);
                    assert(json_of_seq(items@) =~= json_of_seq(old_items).push(value@));
                    Value::Array(items)
                },
                other => other,
            };
            let ghost after = updated@;
            entries.insert(i, (k, updated));
            proof { lemma_update(s, i as int, after); }
            assert(json_of_entries(entries@) =~= s.update(i as int, (s[i as int].0, after)));
            proof {
                if !(before is Array) {
                    assert(map_of(s).insert(key@, before) =~= map_of(s));
                }
            }
        } else {
            let mut items: Vec<Value> = Vec::new();
            items.push(value);
            let ghost single = json_of_seq(items@);
            assert(single =~= seq![value@]);
            let ghost kv = (key@, Json::Array(single));
            entries.insert(i, (key, Value::Array(items)));
            proof { lemma_insert(s, i as int, kv.0, kv.1); }
            assert(json_of_entries(entries@) =~= s.insert(i as int, kv));
            assert forall|j: int| 0 <= j < s.len() implies #[trigger] s[j].0 != key@ by {
                lemma_text_less_irreflexive(key@);
            }
        }
        self.entries = entries;
    }
}

impl Clone for Fields {
    fn clone(&self) -> (r: Self)
        ensures
            r.listing() == self.listing(),
            r@ == self@,
    {
        proof { use_type_invariant(self); }
        Fields { entries: clone_entries(&self.entries) }
    }
}

impl View for Fields {
    type V = Map<Seq<char>, Json>;

    closed spec fn view(&self) -> Map<Seq<char>, Json> {
        map_of(self.listing())
    }
}

} // verus!
