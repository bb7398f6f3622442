//! JSON values as the annotator reads and writes them.
//!
//! An object is a list of entries; when a key occurs more than once, the last
//! entry with that key is the one that counts. The operations below keep
//! keys unique, but they are correct whatever list they are given.
use crate::ast::names::{chars_less, names_set, strictly_sorted};
use vstd::prelude::*;

verus! {

/// A JSON value. Numbers are kept as their text: the annotator never reads them.
#[derive(Debug)]
pub enum JsonValue {
    Null,
    Bool(bool),
    Number(String),
    Str(String),
    Array(Vec<JsonValue>),
    Object(JsonObject),
}

/// One key of an object with its value.
#[derive(Debug)]
pub struct JsonEntry {
    pub key: String,
    pub value: JsonValue,
}

/// A JSON object.
#[derive(Debug)]
pub struct JsonObject {
    entries: Vec<JsonEntry>,
}

/// The map that a list of entries stands for: a later entry overrides an
/// earlier one with the same key.
pub open spec fn entries_view(s: Seq<JsonEntry>) -> Map<Seq<char>, JsonValue>
    decreases s.len(),
{
    if s.len() == 0 {
        Map::empty()
    } else {
        entries_view(s.drop_last()).insert(s.last().key@, s.last().value)
    }
}

impl View for JsonObject {
    type V = Map<Seq<char>, JsonValue>;

    closed spec fn view(&self) -> Map<Seq<char>, JsonValue> {
        entries_view(self.entries@)
    }
}

/// Two JSON values with the same structure and the same text everywhere.
pub open spec fn same_json(a: JsonValue, b: JsonValue) -> bool
    decreases a,
{
    match a {
        JsonValue::Null => b is Null,
        JsonValue::Bool(x) => b matches JsonValue::Bool(y) && x == y,
        JsonValue::Number(x) => b matches JsonValue::Number(y) && x@ == y@,
        JsonValue::Str(x) => b matches JsonValue::Str(y) && x@ == y@,
        JsonValue::Array(xs) => b matches JsonValue::Array(ys) && same_json_seq(xs@, ys@),
        JsonValue::Object(o) => b matches JsonValue::Object(p) && same_entries(
            o.entry_seq(),
            p.entry_seq(),
        ),
    }
}

/// Two lists of values, pairwise the same.
pub open spec fn same_json_seq(xs: Seq<JsonValue>, ys: Seq<JsonValue>) -> bool
    decreases xs,
{
    if xs.len() == 0 {
        ys.len() == 0
    } else {
        &&& ys.len() == xs.len()
        &&& same_json(xs.last(), ys.last())
        &&& same_json_seq(xs.drop_last(), ys.drop_last())
    }
}

/// Two lists of entries, pairwise with the same key and the same value.
pub open spec fn same_entries(xs: Seq<JsonEntry>, ys: Seq<JsonEntry>) -> bool
    decreases xs,
{
    if xs.len() == 0 {
        ys.len() == 0
    } else {
        &&& ys.len() == xs.len()
        &&& xs.last().key@ == ys.last().key@
        &&& same_json(xs.last().value, ys.last().value)
        &&& same_entries(xs.drop_last(), ys.drop_last())
    }
}

/// Every value is the same as itself.
pub proof fn lemma_same_json_refl(v: JsonValue)
    ensures
        same_json(v, v),
    decreases v,
{
    match v {
        JsonValue::Array(items) => {
            lemma_same_json_seq_refl(items@);
        },
        JsonValue::Object(o) => {
            lemma_same_entries_refl(o.entry_seq());
        },
        _ => {},
    }
}

/// Every list of values is the same as itself.
pub proof fn lemma_same_json_seq_refl(s: Seq<JsonValue>)
    ensures
        same_json_seq(s, s),
    decreases s,
{
    if s.len() > 0 {
        lemma_same_json_refl(s.last());
        lemma_same_json_seq_refl(s.drop_last());
    }
}

/// Every list of entries is the same as itself.
pub proof fn lemma_same_entries_refl(s: Seq<JsonEntry>)
    ensures
        same_entries(s, s),
    decreases s,
{
    if s.len() > 0 {
        lemma_same_json_refl(s.last().value);
        lemma_same_entries_refl(s.drop_last());
    }
}

/// Two lists that are pairwise the same are the same.
pub proof fn lemma_same_json_seq_pointwise(xs: Seq<JsonValue>, ys: Seq<JsonValue>)
    requires
        xs.len() == ys.len(),
        forall|j: int| 0 <= j < xs.len() ==> same_json(#[trigger] xs[j], ys[j]),
    ensures
        same_json_seq(xs, ys),
    decreases xs.len(),
{
    if xs.len() > 0 {
        let a = xs.drop_last();
        let b = ys.drop_last();
        assert forall|j: int| 0 <= j < a.len() implies same_json(#[trigger] a[j], b[j]) by {
            assert(a[j] == xs[j] && b[j] == ys[j]);
        }
        lemma_same_json_seq_pointwise(a, b);
        assert(same_json(xs[xs.len() - 1], ys[ys.len() - 1]));
    }
}

/// The text of a string value.
pub open spec fn text_of(v: JsonValue) -> Option<Seq<char>> {
    match v {
        JsonValue::Str(s) => Some(s@),
        _ => None,
    }
}

/// The items of an array value.
pub open spec fn items_of(v: JsonValue) -> Seq<JsonValue> {
    match v {
        JsonValue::Array(items) => items@,
        _ => Seq::empty(),
    }
}

/// Whether `v` is an array all of whose items are strings.
pub open spec fn is_strings(v: JsonValue) -> bool {
    &&& v is Array
    &&& forall|i: int| 0 <= i < items_of(v).len() ==> text_of(#[trigger] items_of(v)[i]) is Some
}

/// The strings among the items of an array.
pub open spec fn strings_of(v: JsonValue) -> Set<Seq<char>> {
    Set::new(
        |s: Seq<char>|
            exists|i: int| 0 <= i < items_of(v).len() && text_of(#[trigger] items_of(v)[i]) == Some(s),
    )
}

/// The map of an object value; empty for other values.
pub open spec fn object_of(v: JsonValue) -> Map<Seq<char>, JsonValue> {
    match v {
        JsonValue::Object(o) => o@,
        _ => Map::empty(),
    }
}

/// Whether `v` is an array of the strings `names`, each once, in increasing order.
pub open spec fn is_sorted_names(v: JsonValue, names: Set<Seq<char>>) -> bool {
    &&& is_strings(v)
    &&& strings_of(v) == names
    &&& forall|i: int, j: int|
        0 <= i < j < items_of(v).len() ==> chars_less(
            text_of(#[trigger] items_of(v)[i])->Some_0,
            text_of(#[trigger] items_of(v)[j])->Some_0,
        )
}

/// An array of the strings `names`, in their order.
pub fn string_array(names: Vec<String>) -> (v: JsonValue)
    ensures
        v is Array,
        items_of(v).len() == names@.len(),
        forall|i: int| 0 <= i < names@.len() ==> text_of(#[trigger] items_of(v)[i]) == Some(names@[i]@),
        strictly_sorted(names@) ==> is_sorted_names(v, names_set(names@)),
{
    let mut items: Vec<JsonValue> = Vec::new();
    let mut i: usize = 0;
    while i < names.len()
        invariant
            0 <= i <= names@.len(),
            items@.len() == i,
            forall|j: int| 0 <= j < i ==> text_of(#[trigger] items@[j]) == Some(names@[j]@),
        decreases names@.len() - i,
    {
        items.push(JsonValue::Str(names[i].clone()));
        i = i + 1;
    }
    let v = JsonValue::Array(items);
    proof {
        assert(items_of(v) == items@);
        assert forall|s: Seq<char>| #[trigger] strings_of(v).contains(s) == names_set(names@).contains(s) by {
            if strings_of(v).contains(s) {
                let i = choose|i: int| 0 <= i < items_of(v).len() && text_of(#[trigger] items_of(v)[i]) == Some(s);
                assert(names@[i]@ == s);
            }
            if names_set(names@).contains(s) {
                let i = choose|i: int| 0 <= i < names@.len() && #[trigger] names@[i]@ == s;
                assert(text_of(items_of(v)[i]) == Some(s));
            }
        }
        assert(strings_of(v) =~= names_set(names@));
        if strictly_sorted(names@) {
            assert forall|i: int, j: int| 0 <= i < j < items_of(v).len() implies chars_less(
                text_of(#[trigger] items_of(v)[i])->Some_0,
                text_of(#[trigger] items_of(v)[j])->Some_0,
            ) by {
                assert(chars_less(names@[i]@, names@[j]@));
            }
        }
    }
    v
}

impl JsonValue {
    /// A copy of the whole value.
    pub fn deep_copy(&self) -> (copy: JsonValue)
        ensures
            same_json(*self, copy),
        decreases self,
    {
        match self {
            JsonValue::Null => JsonValue::Null,
            JsonValue::Bool(b) => JsonValue::Bool(*b),
            JsonValue::Number(n) => JsonValue::Number(n.clone()),
            JsonValue::Str(t) => JsonValue::Str(t.clone()),
            JsonValue::Array(items) => {
                let mut out: Vec<JsonValue> = Vec::new();
                let mut i: usize = 0;
                while i < items.len()
                    invariant
                        0 <= i <= items@.len(),
                        out@.len() == i,
                        same_json_seq(items@.take(i as int), out@),
                        *self == JsonValue::Array(*items),
                    decreases items@.len() - i,
                {
                    proof {
                        vstd::std_specs::vec::axiom_vec_index_decreases(*items, i as int);
                        assert(decreases_to!(*self => (*self)->Array_0));
                    }
                    let c = items[i].deep_copy();
                    let ghost before = out@;
                    out.push(c);
                    proof {
                        assert(items@.take(i + 1).drop_last() =~= items@.take(i as int));
                        assert(out@.drop_last() =~= before);
                    }
                    i = i + 1;
                }
                assert(items@.take(items@.len() as int) =~= items@);
                JsonValue::Array(out)
            },
            JsonValue::Object(o) => JsonValue::Object(o.deep_copy()),
        }
    }
}

impl JsonObject {
    /// A copy of the whole object.
    pub fn deep_copy(&self) -> (copy: JsonObject)
        ensures
            same_entries(self.entry_seq(), copy.entry_seq()),
        decreases self,
    {
        let mut out: Vec<JsonEntry> = Vec::new();
        let mut i: usize = 0;
        while i < self.entries.len()
            invariant
                0 <= i <= self.entries@.len(),
                out@.len() == i,
                same_entries(self.entries@.take(i as int), out@),
            decreases self.entries@.len() - i,
        {
            proof {
                vstd::std_specs::vec::axiom_vec_index_decreases(self.entries, i as int);
                assert(decreases_to!(self => self.entries));
            }
            let value = self.entries[i].value.deep_copy();
            let key = self.entries[i].key.clone();
            let ghost before = out@;
            out.push(JsonEntry { key, value });
            proof {
                assert(self.entries@.take(i + 1).drop_last() =~= self.entries@.take(i as int));
                assert(out@.drop_last() =~= before);
            }
            i = i + 1;
        }
        assert(self.entries@.take(self.entries@.len() as int) =~= self.entries@);
        JsonObject { entries: out }
    }

    /// The entries, in order.
    pub closed spec fn entry_seq(&self) -> Seq<JsonEntry> {
        self.entries@
    }

    /// An object without keys.
    pub fn new() -> (object: Self)
        ensures
            object@ == Map::<Seq<char>, JsonValue>::empty(),
    {
        JsonObject { entries: Vec::new() }
    }

    /// The entries, in order; a later one overrides an earlier one with the same key.
    pub fn entries(&self) -> (entries: &Vec<JsonEntry>)
        ensures
            entries@ == self.entry_seq(),
            entries_view(entries@) == self@,
    {
        &self.entries
    }

    /// Whether `key` has a value.
    pub fn contains_key(&self, key: &str) -> (found: bool)
        ensures
            found == self@.contains_key(key@),
    {
        let wanted = key.to_owned();
        let mut i: usize = 0;
        proof {
            lemma_entries_view_keys(self.entries@);
            assert(self@ == entries_view(self.entries@));
        }
        while i < self.entries.len()
            invariant
                0 <= i <= self.entries@.len(),
                wanted@ == key@,
                forall|j: int| 0 <= j < i ==> self.entries@[j].key@ != key@,
                self@.contains_key(key@) <==> exists|j: int|
                    0 <= j < self.entries@.len() && #[trigger] self.entries@[j].key@ == key@,
            decreases self.entries@.len() - i,
        {
            if self.entries[i].key == wanted {
                assert(self.entries@[i as int].key@ == key@);
                return true;
            }
            i = i + 1;
        }
        false
    }

    /// The value of `key`, if it has one.
    pub fn get(&self, key: &str) -> (value: Option<&JsonValue>)
        ensures
            value is Some == self@.contains_key(key@),
            value matches Some(v) ==> *v == self@[key@],
    {
        let wanted = key.to_owned();
        let mut i: usize = self.entries.len();
        proof {
            lemma_entries_view_keys(self.entries@);
            assert(self@ == entries_view(self.entries@));
        }
        while i > 0
            invariant
                0 <= i <= self.entries@.len(),
                wanted@ == key@,
                forall|j: int| i <= j < self.entries@.len() ==> self.entries@[j].key@ != key@,
                self@.contains_key(key@) <==> exists|j: int|
                    0 <= j < self.entries@.len() && #[trigger] self.entries@[j].key@ == key@,
            decreases i,
        {
            i = i - 1;
            if self.entries[i].key == wanted {
                proof {
                    assert(self.entries@[i as int].key@ == key@);
                    lemma_entries_view_last(self.entries@, i as int);
                }
                return Some(&self.entries[i].value);
            }
        }
        None
    }

    /// Takes out the value of `key`, if it has one.
    pub fn remove(&mut self, key: &str) -> (value: Option<JsonValue>)
        ensures
            final(self)@ == old(self)@.remove(key@),
            value is Some == old(self)@.contains_key(key@),
            value matches Some(v) ==> v == old(self)@[key@],
    {
        let key = key.to_owned();
        let ghost k = key@;
        let ghost original = entries_view(self.entries@);
        let mut found: Option<JsonValue> = None;
        let mut i: usize = 0;
        while i < self.entries.len()
            invariant
                0 <= i <= self.entries@.len(),
                k == key@,
                forall|j: int| 0 <= j < i ==> self.entries@[j].key@ != k,
                entries_view(self.entries@).remove(k) == original.remove(k),
                entries_view(self.entries@).contains_key(k) ==> {
                    &&& original.contains_key(k)
                    &&& entries_view(self.entries@)[k] == original[k]
                    &&& found is None
                },
                !entries_view(self.entries@).contains_key(k) ==> {
                    &&& (found is Some == original.contains_key(k))
                    &&& (found matches Some(v) ==> v == original[k])
                },
            decreases self.entries@.len() - i,
        {
            if self.entries[i].key == key {
                let ghost before = self.entries@;
                proof {
                    lemma_entries_view_keys(before);
                    lemma_entries_view_remove_index(before, i as int, k);
                }
                let entry = self.entries.remove(i);
                proof {
                    lemma_entries_view_keys(self.entries@);
                    if entries_view(self.entries@).contains_key(k) {
                        let l = choose|l: int|
                            0 <= l < self.entries@.len() && #[trigger] self.entries@[l].key@ == k;
                        assert(l >= i);
                        assert(before[l + 1] == self.entries@[l]);
                        lemma_entries_view_remove_later(before, i as int, l + 1);
                        assert(self.entries@ == before.remove(i as int));
                    } else {
                        assert forall|l: int| i < l < before.len() implies before[l].key@ != k by {
                            assert(before[l] == self.entries@[l - 1]);
                        }
                        lemma_entries_view_last(before, i as int);
                    }
                }
                if !self.contains_key(key.as_str()) {
                    found = Some(entry.value);
                }
            } else {
                i = i + 1;
            }
        }
        proof {
            lemma_entries_view_keys(self.entries@);
            assert(!entries_view(self.entries@).contains_key(k));
            assert(entries_view(self.entries@) =~= entries_view(self.entries@).remove(k));
        }
        found
    }

    /// Gives `key` the value `value`; hands back the value it had, if any.
    pub fn insert(&mut self, key: String, value: JsonValue) -> (previous: Option<JsonValue>)
        ensures
            final(self)@ == old(self)@.insert(key@, value),
            previous is Some == old(self)@.contains_key(key@),
            previous matches Some(v) ==> v == old(self)@[key@],
    {
        let ghost k = key@;
        let ghost v = value;
        let previous = self.remove(key.as_str());
        let ghost before = self.entries@;
        self.entries.push(JsonEntry { key, value });
        proof {
            assert(self.entries@.drop_last() =~= before);
            assert(entries_view(self.entries@) =~= old(self)@.insert(k, v));
        }
        previous
    }
}

/// Two maps that agree once `k` is taken out agree on every other key.
pub proof fn lemma_map_agree(a: Map<Seq<char>, JsonValue>, b: Map<Seq<char>, JsonValue>, k: Seq<char>)
    requires
        a.remove(k) == b.remove(k),
    ensures
        forall|x: Seq<char>|
            x != k ==> (#[trigger] a.contains_key(x) == b.contains_key(x)) && (a.contains_key(x)
                ==> a[x] == b[x]),
{
    assert forall|x: Seq<char>| x != k implies (#[trigger] a.contains_key(x) == b.contains_key(x))
        && (a.contains_key(x) ==> a[x] == b[x]) by {
        assert(a.remove(k).contains_key(x) == a.contains_key(x));
        assert(b.remove(k).contains_key(x) == b.contains_key(x));
        if a.contains_key(x) {
            assert(a.remove(k)[x] == a[x]);
            assert(b.remove(k)[x] == b[x]);
        }
    }
}

/// A new last entry sets its key's value.
pub proof fn lemma_entries_view_push(t: Seq<JsonEntry>, e: JsonEntry)
    ensures
        entries_view(t.push(e)) == entries_view(t).insert(e.key@, e.value),
{
    assert(t.push(e).drop_last() =~= t);
}

/// A key has a value exactly when some entry has that key.
pub proof fn lemma_entries_view_keys(s: Seq<JsonEntry>)
    ensures
        forall|k: Seq<char>|
            #[trigger] entries_view(s).contains_key(k) <==> exists|j: int|
                0 <= j < s.len() && #[trigger] s[j].key@ == k,
    decreases s.len(),
{
    if s.len() > 0 {
        let d = s.drop_last();
        lemma_entries_view_keys(d);
        assert(d.push(s.last()) =~= s);
        lemma_entries_view_push(d, s.last());
        assert forall|k: Seq<char>|
            #[trigger] entries_view(s).contains_key(k) implies exists|j: int|
                0 <= j < s.len() && #[trigger] s[j].key@ == k by {
            if k != s.last().key@ {
                assert(entries_view(d).contains_key(k));
                let j = choose|j: int| 0 <= j < d.len() && #[trigger] d[j].key@ == k;
                assert(s[j] == d[j]);
            } else {
                assert(s[s.len() - 1].key@ == k);
            }
        }
        assert forall|k: Seq<char>|
            (exists|j: int| 0 <= j < s.len() && #[trigger] s[j].key@ == k) implies #[trigger] entries_view(
            s,
        ).contains_key(k) by {
            let j = choose|j: int| 0 <= j < s.len() && #[trigger] s[j].key@ == k;
            if j < s.len() - 1 {
                assert(d[j] == s[j]);
            }
        }
    }
}

/// The last entry with a key gives that key's value.
pub proof fn lemma_entries_view_last(s: Seq<JsonEntry>, i: int)
    requires
        0 <= i < s.len(),
        forall|l: int| i < l < s.len() ==> s[l].key@ != s[i].key@,
    ensures
        entries_view(s).contains_key(s[i].key@),
        entries_view(s)[s[i].key@] == s[i].value,
    decreases s.len(),
{
    if i < s.len() - 1 {
        let d = s.drop_last();
        assert(d[i] == s[i]);
        lemma_entries_view_last(d, i);
    }
}

/// Dropping an entry with key `k` changes nothing but, at most, the value of `k`.
pub proof fn lemma_entries_view_remove_index(s: Seq<JsonEntry>, i: int, k: Seq<char>)
    requires
        0 <= i < s.len(),
        s[i].key@ == k,
    ensures
        entries_view(s.remove(i)).remove(k) == entries_view(s).remove(k),
    decreases s.len(),
{
    let n = s.len() - 1;
    let d = s.drop_last();
    if i == n {
        assert(s.remove(i) =~= d);
        assert(entries_view(s.remove(i)).remove(k) =~= entries_view(s).remove(k));
    } else {
        assert(s.remove(i) =~= d.remove(i).push(s[n]));
        assert(d[i] == s[i]);
        lemma_entries_view_push(d.remove(i), s[n]);
        lemma_entries_view_push(d, s[n]);
        assert(d.push(s[n]) =~= s);
        lemma_entries_view_remove_index(d, i, k);
        let a = entries_view(d.remove(i));
        let b = entries_view(d);
        assert(entries_view(s.remove(i)) == a.insert(s[n].key@, s[n].value));
        assert(entries_view(s) == b.insert(s[n].key@, s[n].value));
        assert(a.remove(k) == b.remove(k));
        lemma_map_agree(a, b, k);
        assert(a.insert(s[n].key@, s[n].value).remove(k) =~= b.insert(s[n].key@, s[n].value).remove(
            k,
        ));
    }
}

/// Dropping an entry changes nothing when a later entry has the same key.
pub proof fn lemma_entries_view_remove_later(s: Seq<JsonEntry>, i: int, l: int)
    requires
        0 <= i < l < s.len(),
        s[l].key@ == s[i].key@,
    ensures
        entries_view(s.remove(i)) == entries_view(s),
    decreases s.len(),
{
    let n = s.len() - 1;
    let d = s.drop_last();
    assert(s.remove(i) =~= d.remove(i).push(s[n]));
    assert(d[i] == s[i]);
    lemma_entries_view_push(d.remove(i), s[n]);
    lemma_entries_view_push(d, s[n]);
    assert(d.push(s[n]) =~= s);
    let a = entries_view(d.remove(i));
    let b = entries_view(d);
    assert(entries_view(s.remove(i)) == a.insert(s[n].key@, s[n].value));
    assert(entries_view(s) == b.insert(s[n].key@, s[n].value));
    if s[n].key@ == s[i].key@ {
        lemma_entries_view_remove_index(d, i, s[i].key@);
        assert(a.remove(s[i].key@) == b.remove(s[i].key@));
        lemma_map_agree(a, b, s[i].key@);
        assert(a.insert(s[n].key@, s[n].value) =~= b.insert(s[n].key@, s[n].value));
    } else {
        assert(l < n);
        assert(d[l] == s[l]);
        lemma_entries_view_remove_later(d, i, l);
    }
}

} // verus!
