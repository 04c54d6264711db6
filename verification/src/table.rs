//! A table of texts: one entry per key, the keys in order.

use crate::text::chars_of;
use vstd::prelude::*;

verus! {

/// Whether a text stands before another in the order of their characters,
/// from the one at `i` on.
pub open spec fn stands_before(a: Seq<char>, b: Seq<char>, i: int) -> bool
    decreases b.len() - i,
{
    if i < 0 || i >= b.len() {
        false
    } else if i >= a.len() {
        true
    } else if a[i] != b[i] {
        a[i] < b[i]
    } else {
        stands_before(a, b, i + 1)
    }
}

/// The value under a key.
pub open spec fn lookup<V>(s: Seq<(Seq<char>, V)>, key: Seq<char>) -> Option<V>
    decreases s.len(),
{
    if s.len() == 0 {
        None
    } else if s[0].0 == key {
        Some(s[0].1)
    } else {
        lookup(s.skip(1), key)
    }
}

/// Entries with one more, in its place, or in place of the one that its key
/// had.
pub open spec fn with_entry<V>(s: Seq<(Seq<char>, V)>, key: Seq<char>, value: V) -> Seq<
    (Seq<char>, V),
>
    decreases s.len(),
{
    if s.len() == 0 {
        seq![(key, value)]
    } else if s[0].0 == key {
        seq![(key, value)] + s.skip(1)
    } else if stands_before(key, s[0].0, 0) {
        seq![(key, value)] + s
    } else {
        seq![s[0]] + with_entry(s.skip(1), key, value)
    }
}

/// Whether the keys stand in order.
pub open spec fn in_key_order<V>(s: Seq<(Seq<char>, V)>) -> bool {
    forall|i: int, j: int|
        0 <= i < j < s.len() ==> stands_before((#[trigger] s[i]).0, (#[trigger] s[j]).0, 0)
}

/// Values by text, in the order of the texts.
#[derive(Debug, Clone, PartialEq)]
pub struct Table<V> {
    entries: Vec<(String, V)>,
}

impl<V: View> View for Table<V> {
    type V = Seq<(Seq<char>, V::V)>;

    closed spec fn view(&self) -> Seq<(Seq<char>, V::V)> {
        Seq::new(self.entries@.len(), |i: int| (self.entries@[i].0@, self.entries@[i].1@))
    }
}

fn precedes(a: &str, b: &str) -> (r: bool)
    ensures
        r == stands_before(a@, b@, 0),
{
    let x = chars_of(a);
    let y = chars_of(b);
    let mut i: usize = 0;
    while i < y.len()
        invariant
            x@ == a@,
            y@ == b@,
            i <= y@.len(),
            i <= x@.len() || i == 0,
            stands_before(a@, b@, 0) == stands_before(a@, b@, i as int),
        decreases y@.len() - i,
    {
        if i >= x.len() {
            return true;
        }
        if x[i] != y[i] {
            return x[i] < y[i];
        }
        i = i + 1;
    }
    false
}

proof fn lemma_stands_before_total(a: Seq<char>, b: Seq<char>, i: int)
    requires
        0 <= i <= a.len(),
        i <= b.len(),
        a.take(i) == b.take(i),
        a != b,
    ensures
        stands_before(a, b, i) || stands_before(b, a, i),
    decreases b.len() - i,
{
    if i == a.len() && i == b.len() {
        assert(a.take(i) == a);
        assert(b.take(i) == b);
    } else if i < a.len() && i < b.len() && a[i] == b[i] {
        assert(a.take(i + 1) == a.take(i).push(a[i]));
        assert(b.take(i + 1) == b.take(i).push(b[i]));
        lemma_stands_before_total(a, b, i + 1);
    }
}

proof fn lemma_stands_before_transitive(a: Seq<char>, b: Seq<char>, c: Seq<char>, i: int)
    requires
        0 <= i,
        stands_before(a, b, i),
        stands_before(b, c, i),
    ensures
        stands_before(a, c, i),
    decreases c.len() - i,
{
    if i < a.len() && i < b.len() && i < c.len() && a[i] == b[i] && b[i] == c[i] {
        lemma_stands_before_transitive(a, b, c, i + 1);
    }
}

/// Putting an entry in keeps the keys in order.
pub proof fn law_keys_stay_in_order<V>(s: Seq<(Seq<char>, V)>, key: Seq<char>, value: V)
    requires
        in_key_order(s),
    ensures
        in_key_order(with_entry(s, key, value)),
    decreases s.len(),
{
    let t = with_entry(s, key, value);
    if s.len() > 0 {
        let rest = s.skip(1);
        assert(in_key_order(rest)) by {
            assert forall|i: int, j: int| 0 <= i < j < rest.len() implies stands_before(
                (#[trigger] rest[i]).0,
                (#[trigger] rest[j]).0,
                0,
            ) by {
                assert(rest[i] == s[i + 1]);
                assert(rest[j] == s[j + 1]);
            }
        }
        if s[0].0 == key {
            assert forall|i: int, j: int| 0 <= i < j < t.len() implies stands_before(
                (#[trigger] t[i]).0,
                (#[trigger] t[j]).0,
                0,
            ) by {
                assert(t[i].0 == s[i].0);
                assert(t[j].0 == s[j].0);
            }
        } else if stands_before(key, s[0].0, 0) {
            assert forall|i: int, j: int| 0 <= i < j < t.len() implies stands_before(
                (#[trigger] t[i]).0,
                (#[trigger] t[j]).0,
                0,
            ) by {
                assert(t[j] == s[j - 1]);
                if i > 0 {
                    assert(t[i] == s[i - 1]);
                } else if j > 1 {
                    assert(stands_before(s[0].0, s[j - 1].0, 0));
                    lemma_stands_before_transitive(key, s[0].0, s[j - 1].0, 0);
                }
            }
        } else {
            law_keys_stay_in_order(rest, key, value);
            assert(s[0].0.take(0) == key.take(0));
            lemma_stands_before_total(s[0].0, key, 0);
            let w = with_entry(rest, key, value);
            lemma_entry_keys(rest, key, value);
            assert forall|i: int, j: int| 0 <= i < j < t.len() implies stands_before(
                (#[trigger] t[i]).0,
                (#[trigger] t[j]).0,
                0,
            ) by {
                assert(t[j] == w[j - 1]);
                if i > 0 {
                    assert(t[i] == w[i - 1]);
                } else if w[j - 1].0 != key {
                    let k = choose|k: int| 0 <= k < rest.len() && rest[k].0 == w[j - 1].0;
                    assert(rest[k] == s[k + 1]);
                }
            }
        }
    }
}

proof fn lemma_entry_keys<V>(s: Seq<(Seq<char>, V)>, key: Seq<char>, value: V)
    ensures
        forall|i: int|
            0 <= i < with_entry(s, key, value).len() ==> (#[trigger] with_entry(
                s,
                key,
                value,
            )[i]).0 == key || exists|k: int|
                0 <= k < s.len() && (#[trigger] s[k]).0 == with_entry(s, key, value)[i].0,
    decreases s.len(),
{
    let t = with_entry(s, key, value);
    if s.len() > 0 {
        let rest = s.skip(1);
        lemma_entry_keys(rest, key, value);
        let w = with_entry(rest, key, value);
        assert forall|i: int| 0 <= i < t.len() implies (#[trigger] t[i]).0 == key || exists|k: int|
            0 <= k < s.len() && (#[trigger] s[k]).0 == t[i].0 by {
            if s[0].0 == key {
                assert(t[i].0 == s[i].0);
            } else if stands_before(key, s[0].0, 0) {
                if i > 0 {
                    assert(t[i] == s[i - 1]);
                }
            } else if i == 0 {
                assert(t[i] == s[0]);
            } else {
                assert(t[i] == w[i - 1]);
                if w[i - 1].0 != key {
                    let k = choose|k: int| 0 <= k < rest.len() && (#[trigger] rest[k]).0 == w[i
                        - 1].0;
                    assert(rest[k] == s[k + 1]);
                }
            }
        }
    }
}

/// A table gives back under a key what was last put there, and under any
/// other key what it gave before.
pub proof fn law_lookup_after_entry<V>(
    s: Seq<(Seq<char>, V)>,
    key: Seq<char>,
    value: V,
    other: Seq<char>,
)
    requires
        in_key_order(s),
    ensures
        lookup(with_entry(s, key, value), key) == Some(value),
        other != key ==> lookup(with_entry(s, key, value), other) == lookup(s, other),
    decreases s.len(),
{
    let t = with_entry(s, key, value);
    if s.len() > 0 {
        let rest = s.skip(1);
        if s[0].0 == key {
            assert(t.skip(1) == rest);
        } else if stands_before(key, s[0].0, 0) {
            assert(t.skip(1) == s);
        } else {
            assert(in_key_order(rest)) by {
                assert forall|i: int, j: int| 0 <= i < j < rest.len() implies stands_before(
                    (#[trigger] rest[i]).0,
                    (#[trigger] rest[j]).0,
                    0,
                ) by {
                    assert(rest[i] == s[i + 1]);
                    assert(rest[j] == s[j + 1]);
                }
            }
            law_lookup_after_entry(rest, key, value, other);
            assert(t.skip(1) == with_entry(rest, key, value));
        }
    } else {
        assert(t.skip(1) == s);
        assert(lookup(t.skip(1), other) is None);
    }
}

impl<V: View> Table<V> {
    pub fn new() -> (r: Table<V>)
        ensures
            r@ == Seq::<(Seq<char>, V::V)>::empty(),
    {
        let r: Table<V> = Table { entries: Vec::new() };
        assert(r@ == Seq::<(Seq<char>, V::V)>::empty());
        r
    }

    pub fn len(&self) -> (r: usize)
        ensures
            r == self@.len(),
    {
        self.entries.len()
    }

    pub fn is_empty(&self) -> (r: bool)
        ensures
            r == (self@.len() == 0),
    {
        self.entries.len() == 0
    }

    /// The key of the entry at a place.
    pub fn key(&self, i: usize) -> (r: &str)
        requires
            i < self@.len(),
        ensures
            r@ == self@[i as int].0,
    {
        self.entries[i].0.as_str()
    }

    /// The value of the entry at a place.
    pub fn value(&self, i: usize) -> (r: &V)
        requires
            i < self@.len(),
        ensures
            r@ == self@[i as int].1,
    {
        &self.entries[i].1
    }

    /// The keys in order.
    pub fn keys(&self) -> (r: Vec<&str>)
        ensures
            r@.len() == self@.len(),
            forall|i: int| 0 <= i < r@.len() ==> (#[trigger] r@[i])@ == self@[i].0,
    {
        let mut out: Vec<&str> = Vec::new();
        let n = self.entries.len();
        for i in 0..n
            invariant
                n == self@.len(),
                out@.len() == i,
                forall|j: int| 0 <= j < i ==> (#[trigger] out@[j])@ == self@[j].0,
        {
            out.push(self.key(i));
        }
        out
    }

    pub fn get(&self, key: &str) -> (r: Option<&V>)
        ensures
            match r {
                Some(v) => lookup(self@, key@) == Some(v@),
                None => lookup(self@, key@) is None,
            },
    {
        let n = self.entries.len();
        assert(self@.skip(0) == self@);
        for i in 0..n
            invariant
                n == self@.len(),
                lookup(self@, key@) == lookup(self@.skip(i as int), key@),
        {
            assert(self@.skip(i as int).skip(1) == self@.skip(i + 1));
            if crate::text::same(self.key(i), key) {
                return Some(self.value(i));
            }
        }
        None
    }

    pub fn contains_key(&self, key: &str) -> (r: bool)
        ensures
            r == (lookup(self@, key@) is Some),
    {
        self.get(key).is_some()
    }

    /// Put a value under a key.
    pub fn insert(&mut self, key: &str, value: V)
        ensures
            final(self)@ == with_entry(old(self)@, key@, value@),
            in_key_order(old(self)@) ==> in_key_order(final(self)@),
    {
        let ghost before = self@;
        let ghost model = value@;
        proof {
            if in_key_order(before) {
                law_keys_stay_in_order(before, key@, model);
            }
        }
        let n = self.entries.len();
        let mut i: usize = 0;
        assert(before.take(0) + with_entry(before.skip(0), key@, model) == with_entry(
            before,
            key@,
            model,
        )) by {
            assert(before.skip(0) == before);
        }
        while i < n && !crate::text::same(self.key(i), key) && !precedes(key, self.key(i))
            invariant
                self@ == before,
                n == before.len(),
                i <= n,
                before.take(i as int) + with_entry(before.skip(i as int), key@, model)
                    == with_entry(before, key@, model),
            decreases n - i,
        {
            proof {
                let rest = before.skip(i as int);
                assert(rest.skip(1) == before.skip(i + 1));
                assert(before.take(i as int) + (seq![rest[0]] + with_entry(
                    rest.skip(1),
                    key@,
                    model,
                )) == before.take(i + 1) + with_entry(before.skip(i + 1), key@, model));
            }
            i = i + 1;
        }
        let ghost old_entries = self.entries@;
        if i < n && crate::text::same(self.key(i), key) {
            self.entries.set(i, (key.to_string(), value));
            proof {
                assert(self@ == before.take(i as int) + (seq![(key@, model)] + before.skip(
                    i as int,
                ).skip(1)));
            }
        } else {
            self.entries.insert(i, (key.to_string(), value));
            proof {
                let rest = before.skip(i as int);
                if rest.len() == 0 {
                    assert(self@ == before.take(i as int) + seq![(key@, model)]);
                } else {
                    assert(self@ == before.take(i as int) + (seq![(key@, model)] + rest));
                }
            }
        }
    }
}

} // verus!
