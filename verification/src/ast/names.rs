//! Sets of names, and the order in which they are listed.
use crate::ast::json::{items_of, strings_of, text_of, JsonValue};
use vstd::prelude::*;

verus! {

/// The names that a list of strings holds.
pub open spec fn names_set(s: Seq<String>) -> Set<Seq<char>> {
    Set::new(|x: Seq<char>| exists|i: int| 0 <= i < s.len() && #[trigger] s[i]@ == x)
}

/// The order of strings: by code point, character after character; a proper
/// prefix comes first. This is the order of their UTF-8 bytes.
pub open spec fn chars_less(a: Seq<char>, b: Seq<char>) -> bool
    decreases a.len(),
{
    if b.len() == 0 {
        false
    } else if a.len() == 0 {
        true
    } else if a[0] != b[0] {
        (a[0] as int) < (b[0] as int)
    } else {
        chars_less(a.drop_first(), b.drop_first())
    }
}

/// Whether the strings are listed in increasing order, so without repeats.
pub open spec fn strictly_sorted(s: Seq<String>) -> bool {
    forall|i: int, j: int| 0 <= i < j < s.len() ==> chars_less(#[trigger] s[i]@, #[trigger] s[j]@)
}

/// The order of strings from character `i` on, where the characters before
/// it are the same.
proof fn lemma_chars_less_step(a: Seq<char>, b: Seq<char>, i: int)
    requires
        0 <= i < a.len(),
        i < b.len(),
        a[i] == b[i],
    ensures
        chars_less(a.skip(i), b.skip(i)) == chars_less(a.skip(i + 1), b.skip(i + 1)),
{
    assert(a.skip(i).drop_first() =~= a.skip(i + 1));
    assert(b.skip(i).drop_first() =~= b.skip(i + 1));
}

/// Whether `a` comes before `b` in the order of strings: the first
/// character where they differ decides, and a proper prefix comes first.
fn string_less(a: &String, b: &String) -> (less: bool)
    ensures
        less == chars_less(a@, b@),
{
    let x = a.as_str();
    let y = b.as_str();
    let n = x.unicode_len();
    let m = y.unicode_len();
    let mut i: usize = 0;
    proof {
        assert(x@.skip(0) =~= x@);
        assert(y@.skip(0) =~= y@);
    }
    while i < n && i < m
        invariant
            i <= n,
            i <= m,
            n == x@.len(),
            m == y@.len(),
            x@ == a@,
            y@ == b@,
            chars_less(a@, b@) == chars_less(x@.skip(i as int), y@.skip(i as int)),
        decreases n - i,
    {
        let c = x.get_char(i);
        let d = y.get_char(i);
        if c != d {
            proof {
                assert(x@.skip(i as int)[0] == c);
                assert(y@.skip(i as int)[0] == d);
            }
            return (c as u32) < (d as u32);
        }
        proof {
            lemma_chars_less_step(x@, y@, i as int);
        }
        i = i + 1;
    }
    proof {
        assert(y@.skip(i as int).len() == m - i);
        assert(x@.skip(i as int).len() == n - i);
    }
    i < m
}

/// Whether no name occurs twice in the list.
pub open spec fn no_repeats(s: Seq<String>) -> bool {
    forall|i: int, j: int| 0 <= i < j < s.len() ==> #[trigger] s[i]@ != #[trigger] s[j]@
}

/// A set of names, each held once.
pub struct NameSet {
    names: Vec<String>,
}

impl View for NameSet {
    type V = Set<Seq<char>>;

    open spec fn view(&self) -> Set<Seq<char>> {
        names_set(self.items())
    }
}

impl NameSet {
    /// No name is held twice.
    #[verifier::type_invariant]
    closed spec fn held_once(self) -> bool {
        no_repeats(self.names@)
    }

    /// The names, in the order they were added.
    pub closed spec fn items(&self) -> Seq<String> {
        self.names@
    }

    /// The empty set.
    pub fn new() -> (set: Self)
        ensures
            set@ == Set::<Seq<char>>::empty(),
    {
        let set = NameSet { names: Vec::new() };
        assert(set@ =~= Set::<Seq<char>>::empty());
        set
    }

    /// The names, in the order they were added, each once.
    pub fn names(&self) -> (names: &Vec<String>)
        ensures
            names@ == self.items(),
            names_set(names@) == self@,
            no_repeats(names@),
    {
        proof {
            use_type_invariant(self);
        }
        &self.names
    }

    /// Whether `name` is in the set.
    pub fn contains(&self, name: &str) -> (found: bool)
        ensures
            found == self@.contains(name@),
    {
        let wanted = name.to_owned();
        let mut i: usize = 0;
        while i < self.names.len()
            invariant
                0 <= i <= self.names@.len(),
                wanted@ == name@,
                forall|j: int| 0 <= j < i ==> self.names@[j]@ != name@,
            decreases self.names@.len() - i,
        {
            if self.names[i] == wanted {
                assert(self.names@[i as int]@ == name@);
                return true;
            }
            i = i + 1;
        }
        false
    }

    /// Adds `name`; says whether it was new.
    pub fn insert(&mut self, name: String) -> (added: bool)
        ensures
            final(self)@ == old(self)@.insert(name@),
            added == !old(self)@.contains(name@),
    {
        if self.contains(name.as_str()) {
            assert(old(self)@.insert(name@) =~= old(self)@);
            false
        } else {
            let ghost n = name@;
            proof {
                use_type_invariant(&*self);
                assert forall|i: int| 0 <= i < self.names@.len() implies self.names@[i]@ != n by {
                    assert(names_set(self.names@).contains(self.names@[i]@));
                }
            }
            let mut names: Vec<String> = Vec::new();
            std::mem::swap(&mut names, &mut self.names);
            names.push(name);
            self.names = names;
            assert forall|x: Seq<char>| #[trigger] self@.contains(x) == old(self)@.insert(n).contains(
                x,
            ) by {
                if old(self)@.contains(x) {
                    let i = choose|i: int| 0 <= i < old(self).names@.len() && #[trigger] old(
                        self,
                    ).names@[i]@ == x;
                    assert(self.names@[i] == old(self).names@[i]);
                }
                if self@.contains(x) && x != n {
                    let i = choose|i: int| 0 <= i < self.names@.len() && #[trigger] self.names@[i]@ == x;
                    assert(i < old(self).names@.len());
                    assert(self.names@[i] == old(self).names@[i]);
                }
                if x == n {
                    assert(self.names@[self.names@.len() - 1]@ == n);
                }
            }
            assert(self@ =~= old(self)@.insert(n));
            true
        }
    }

    /// Removes every name.
    pub fn clear(&mut self)
        ensures
            final(self)@ == Set::<Seq<char>>::empty(),
    {
        self.names = Vec::new();
        assert(self@ =~= Set::<Seq<char>>::empty());
    }

    /// Adds every name of `other`.
    pub fn extend(&mut self, other: &NameSet)
        ensures
            final(self)@ == old(self)@.union(other@),
    {
        let mut i: usize = 0;
        while i < other.names.len()
            invariant
                0 <= i <= other.names@.len(),
                self@ == old(self)@.union(names_set(other.names@.take(i as int))),
            decreases other.names@.len() - i,
        {
            let name = other.names[i].clone();
            self.insert(name);
            proof {
                lemma_names_set_push(other.names@.take(i as int), other.names@[i as int]);
                assert(other.names@.take(i + 1) =~= other.names@.take(i as int).push(
                    other.names@[i as int],
                ));
                assert(self@ =~= old(self)@.union(names_set(other.names@.take(i + 1))));
            }
            i = i + 1;
        }
        assert(other.names@.take(other.names@.len() as int) =~= other.names@);
    }

    /// Adds every name of `other` that `excluded` lacks.
    pub fn extend_except(&mut self, other: &NameSet, excluded: &NameSet)
        ensures
            final(self)@ == old(self)@.union(other@.difference(excluded@)),
    {
        let mut i: usize = 0;
        while i < other.names.len()
            invariant
                0 <= i <= other.names@.len(),
                self@ == old(self)@.union(names_set(other.names@.take(i as int)).difference(
                    excluded@,
                )),
            decreases other.names@.len() - i,
        {
            let ghost before = self@;
            if !excluded.contains(other.names[i].as_str()) {
                let name = other.names[i].clone();
                self.insert(name);
            }
            proof {
                lemma_names_set_push(other.names@.take(i as int), other.names@[i as int]);
                assert(other.names@.take(i + 1) =~= other.names@.take(i as int).push(
                    other.names@[i as int],
                ));
                assert(self@ =~= old(self)@.union(names_set(other.names@.take(i + 1)).difference(
                    excluded@,
                )));
            }
            i = i + 1;
        }
        assert(other.names@.take(other.names@.len() as int) =~= other.names@);
    }

    /// The names of this set that `other` holds too.
    pub fn intersection(&self, other: &NameSet) -> (common: NameSet)
        ensures
            common@ == self@.intersect(other@),
    {
        let mut common = NameSet::new();
        let mut i: usize = 0;
        while i < self.names.len()
            invariant
                0 <= i <= self.names@.len(),
                common@ == names_set(self.names@.take(i as int)).intersect(other@),
            decreases self.names@.len() - i,
        {
            if other.contains(self.names[i].as_str()) {
                let name = self.names[i].clone();
                common.insert(name);
            }
            proof {
                lemma_names_set_push(self.names@.take(i as int), self.names@[i as int]);
                assert(self.names@.take(i + 1) =~= self.names@.take(i as int).push(
                    self.names@[i as int],
                ));
                assert(common@ =~= names_set(self.names@.take(i + 1)).intersect(other@));
            }
            i = i + 1;
        }
        assert(self.names@.take(self.names@.len() as int) =~= self.names@);
        common
    }

    /// Adds the strings among the items of `array`.
    pub fn add_strings(&mut self, array: &JsonValue)
        ensures
            final(self)@ == old(self)@.union(strings_of(*array)),
    {
        if let JsonValue::Array(items) = array {
            let mut i: usize = 0;
            while i < items.len()
                invariant
                    0 <= i <= items@.len(),
                    items_of(*array) == items@,
                    self@ == old(self)@.union(strings_of_prefix(items@, i as int)),
                decreases items@.len() - i,
            {
                if let JsonValue::Str(name) = &items[i] {
                    self.insert(name.clone());
                }
                proof {
                    assert(self@ =~= old(self)@.union(strings_of_prefix(items@, i + 1)));
                }
                i = i + 1;
            }
            assert(strings_of_prefix(items@, items@.len() as int) =~= strings_of(*array));
        } else {
            assert(strings_of(*array) =~= Set::<Seq<char>>::empty());
            assert(self@ =~= old(self)@.union(strings_of(*array)));
        }
    }

    /// The names in increasing order.
    pub fn sorted(&self) -> (sorted: Vec<String>)
        ensures
            strictly_sorted(sorted@),
            names_set(sorted@) == self@,
    {
        let mut out: Vec<String> = Vec::new();
        let mut i: usize = 0;
        assert(names_set(out@) =~= names_set(self.names@.take(0)));
        while i < self.names.len()
            invariant
                0 <= i <= self.names@.len(),
                strictly_sorted(out@),
                names_set(out@) == names_set(self.names@.take(i as int)),
            decreases self.names@.len() - i,
        {
            let name = &self.names[i];
            let mut j: usize = 0;
            while j < out.len() && string_less(&out[j], name)
                invariant
                    0 <= j <= out@.len(),
                    forall|k: int| 0 <= k < j ==> chars_less(#[trigger] out@[k]@, name@),
                decreases out@.len() - j,
            {
                j = j + 1;
            }
            let ghost before = out@;
            proof {
                lemma_names_set_push(self.names@.take(i as int), self.names@[i as int]);
                assert(self.names@.take(i + 1) =~= self.names@.take(i as int).push(
                    self.names@[i as int],
                ));
            }
            if j < out.len() && out[j] == *name {
                assert(names_set(out@).contains(name@));
                assert(names_set(out@) =~= names_set(out@).insert(name@));
            } else {
                proof {
                    if j < out@.len() {
                        lemma_chars_less_total(out@[j as int]@, name@);
                    }
                }
                out.insert(j, name.clone());
                proof {
                    assert forall|p: int, q: int| 0 <= p < q < out@.len() implies chars_less(
                        #[trigger] out@[p]@,
                        #[trigger] out@[q]@,
                    ) by {
                        if q == j {
                            assert(out@[p] == before[p]);
                        } else if p == j {
                            assert(out@[q] == before[q - 1]);
                            if q - 1 > j {
                                lemma_chars_less_transitive(name@, before[j as int]@, before[q - 1]@);
                            }
                        } else if p < j {
                            if q < j {
                                assert(out@[p] == before[p] && out@[q] == before[q]);
                            } else {
                                assert(out@[p] == before[p] && out@[q] == before[q - 1]);
                            }
                        } else {
                            assert(out@[p] == before[p - 1] && out@[q] == before[q - 1]);
                        }
                    }
                    lemma_names_set_insert(before, j as int, out@[j as int]);
                    assert(out@ == before.insert(j as int, out@[j as int]));
                }
            }
            i = i + 1;
        }
        assert(self.names@.take(self.names@.len() as int) =~= self.names@);
        out
    }
}

/// The strings among the first `n` items.
pub open spec fn strings_of_prefix(items: Seq<JsonValue>, n: int) -> Set<Seq<char>> {
    Set::new(|s: Seq<char>| exists|i: int| 0 <= i < n && text_of(#[trigger] items[i]) == Some(s))
}

/// A name put at the end of a list joins its set.
pub proof fn lemma_names_set_push(s: Seq<String>, x: String)
    ensures
        names_set(s.push(x)) == names_set(s).insert(x@),
{
    let t = s.push(x);
    assert forall|y: Seq<char>| #[trigger] names_set(t).contains(y) == names_set(s).insert(
        x@,
    ).contains(y) by {
        if names_set(s).contains(y) {
            let i = choose|i: int| 0 <= i < s.len() && #[trigger] s[i]@ == y;
            assert(t[i] == s[i]);
        }
        if names_set(t).contains(y) && y != x@ {
            let i = choose|i: int| 0 <= i < t.len() && #[trigger] t[i]@ == y;
            assert(i < s.len());
            assert(t[i] == s[i]);
        }
        if y == x@ {
            assert(t[s.len() as int]@ == y);
        }
    }
    assert(names_set(t) =~= names_set(s).insert(x@));
}

/// A name put anywhere in a list joins its set.
pub proof fn lemma_names_set_insert(s: Seq<String>, j: int, x: String)
    requires
        0 <= j <= s.len(),
    ensures
        names_set(s.insert(j, x)) == names_set(s).insert(x@),
{
    let t = s.insert(j, x);
    assert forall|y: Seq<char>| #[trigger] names_set(t).contains(y) == names_set(s).insert(
        x@,
    ).contains(y) by {
        if names_set(s).contains(y) {
            let i = choose|i: int| 0 <= i < s.len() && #[trigger] s[i]@ == y;
            if i < j {
                assert(t[i] == s[i]);
            } else {
                assert(t[i + 1] == s[i]);
            }
        }
        if names_set(t).contains(y) && y != x@ {
            let i = choose|i: int| 0 <= i < t.len() && #[trigger] t[i]@ == y;
            if i < j {
                assert(t[i] == s[i]);
            } else {
                assert(i != j);
                assert(t[i] == s[i - 1]);
            }
        }
        if y == x@ {
            assert(t[j]@ == y);
        }
    }
    assert(names_set(t) =~= names_set(s).insert(x@));
}

/// Two different strings are ordered one way or the other.
pub proof fn lemma_chars_less_total(a: Seq<char>, b: Seq<char>)
    ensures
        a == b || chars_less(a, b) || chars_less(b, a),
    decreases a.len(),
{
    if a.len() > 0 && b.len() > 0 && a[0] == b[0] {
        lemma_chars_less_total(a.drop_first(), b.drop_first());
        if a.drop_first() == b.drop_first() {
            assert(a =~= seq![a[0]] + a.drop_first());
            assert(b =~= seq![b[0]] + b.drop_first());
        }
    } else if a.len() == 0 && b.len() == 0 {
        assert(a =~= b);
    } else if a.len() > 0 && b.len() > 0 {
        assert(a[0] as int != b[0] as int);
    }
}

/// The order of strings is transitive.
pub proof fn lemma_chars_less_transitive(a: Seq<char>, b: Seq<char>, c: Seq<char>)
    requires
        chars_less(a, b),
        chars_less(b, c),
    ensures
        chars_less(a, c),
    decreases a.len(),
{
    if a.len() > 0 && b.len() > 0 && c.len() > 0 && a[0] == b[0] && b[0] == c[0] {
        lemma_chars_less_transitive(a.drop_first(), b.drop_first(), c.drop_first());
    }
}

} // verus!
