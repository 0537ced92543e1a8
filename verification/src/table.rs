//! A small keyed table: text keys, each present at most once, kept in the
//! order in which they were first inserted.

use vstd::prelude::*;
use crate::text::chars_of;

verus! {

/// The position of `k` among the keys of `s`, searching from the end.
pub open spec fn find_key<W>(s: Seq<(Seq<char>, W)>, k: Seq<char>) -> Option<int>
    decreases s.len(),
{
    if s.len() == 0 {
        None
    } else if s.last().0 == k {
        Some(s.len() - 1)
    } else {
        find_key(s.drop_last(), k)
    }
}

/// The value stored under `k`, if any.
pub open spec fn lookup<W>(s: Seq<(Seq<char>, W)>, k: Seq<char>) -> Option<W> {
    match find_key(s, k) {
        Some(i) => Some(s[i].1),
        None => None,
    }
}

pub open spec fn has_key<W>(s: Seq<(Seq<char>, W)>, k: Seq<char>) -> bool {
    exists|i: int| 0 <= i < s.len() && #[trigger] s[i].0 == k
}

/// `s` with `k` bound to `v`: the old binding replaced in place, or a new
/// one appended at the end.
pub open spec fn put<W>(s: Seq<(Seq<char>, W)>, k: Seq<char>, v: W) -> Seq<(Seq<char>, W)> {
    match find_key(s, k) {
        Some(i) => s.update(i, (k, v)),
        None => s.push((k, v)),
    }
}

/// No key occurs twice.
pub open spec fn keys_distinct<W>(s: Seq<(Seq<char>, W)>) -> bool {
    forall|i: int, j: int| 0 <= i < j < s.len() ==> #[trigger] s[i].0 != #[trigger] s[j].0
}

/// `find_key` finds exactly the positions that hold the key.
pub proof fn lemma_find_key<W>(s: Seq<(Seq<char>, W)>, k: Seq<char>)
    ensures
        match find_key(s, k) {
            Some(i) => 0 <= i < s.len() && s[i].0 == k && forall|j: int|
                i < j < s.len() ==> #[trigger] s[j].0 != k,
            None => !has_key(s, k),
        },
    decreases s.len(),
{
    if s.len() > 0 {
        lemma_find_key(s.drop_last(), k);
        if s.last().0 != k {
            match find_key(s.drop_last(), k) {
                Some(i) => {
                    assert(s[i] == s.drop_last()[i]);
                    assert forall|j: int| i < j < s.len() implies #[trigger] s[j].0 != k by {
                        if j < s.len() - 1 {
                            assert(s[j] == s.drop_last()[j]);
                        }
                    }
                },
                None => {
                    assert forall|j: int| 0 <= j < s.len() implies #[trigger] s[j].0 != k by {
                        if j < s.len() - 1 {
                            assert(s[j] == s.drop_last()[j]);
                            assert(!has_key(s.drop_last(), k));
                        }
                    }
                },
            }
        }
    }
}

/// The key found at position `j` when no later position holds it.
proof fn lemma_find_key_at<W>(s: Seq<(Seq<char>, W)>, k: Seq<char>, j: int)
    requires
        0 <= j < s.len(),
        s[j].0 == k,
        forall|t: int| j < t < s.len() ==> #[trigger] s[t].0 != k,
    ensures
        find_key(s, k) == Some(j),
{
    lemma_find_key(s, k);
    match find_key(s, k) {
        Some(i) => {
            if i < j {
                assert(s[j].0 != k);
            }
            if i > j {
                assert(s[i].0 != k);
            }
        },
        None => {
            assert(has_key(s, k));
        },
    }
}

/// Reading a key back after binding it gives the new value; other keys keep
/// theirs, and no key comes to occur twice.
pub proof fn lemma_put<W>(s: Seq<(Seq<char>, W)>, k: Seq<char>, v: W, other: Seq<char>)
    requires
        keys_distinct(s),
    ensures
        keys_distinct(put(s, k, v)),
        lookup(put(s, k, v), k) == Some(v),
        other != k ==> lookup(put(s, k, v), other) == lookup(s, other),
        has_key(put(s, k, v), other) == (has_key(s, other) || other == k),
{
    lemma_find_key(s, k);
    lemma_find_key(s, other);
    let t = put(s, k, v);
    match find_key(s, k) {
        Some(i) => {
            assert forall|a: int, b: int| 0 <= a < b < t.len() implies #[trigger] t[a].0
                != #[trigger] t[b].0 by {
                assert(s[a].0 != s[b].0);
            }
            lemma_find_key_at(t, k, i);
            if other != k {
                lemma_find_key(t, other);
                match find_key(s, other) {
                    Some(j) => {
                        assert forall|x: int| j < x < t.len() implies #[trigger] t[x].0 != other by {
                            if x != i {
                                assert(s[x].0 != other);
                            }
                        }
                        lemma_find_key_at(t, other, j);
                    },
                    None => {
                        if has_key(t, other) {
                            let x = choose|x: int| 0 <= x < t.len() && #[trigger] t[x].0 == other;
                            assert(s[x].0 == other);
                        }
                    },
                }
            }
            assert(has_key(s, k));
            if has_key(t, other) && other != k {
                let x = choose|x: int| 0 <= x < t.len() && #[trigger] t[x].0 == other;
                assert(s[x].0 == other);
            }
            if has_key(s, other) {
                let x = choose|x: int| 0 <= x < s.len() && #[trigger] s[x].0 == other;
                if x == i {
                    assert(t[i].0 == other);
                } else {
                    assert(t[x].0 == other);
                }
            }
        },
        None => {
            assert forall|a: int, b: int| 0 <= a < b < t.len() implies #[trigger] t[a].0
                != #[trigger] t[b].0 by {
                if b == t.len() - 1 {
                    assert(s[a].0 != k);
                } else {
                    assert(s[a].0 != s[b].0);
                }
            }
            lemma_find_key_at(t, k, s.len() as int);
            if other != k {
                assert(t.drop_last() =~= s);
            }
            if has_key(t, other) && other != k {
                let x = choose|x: int| 0 <= x < t.len() && #[trigger] t[x].0 == other;
                assert(s[x].0 == other);
            }
            if has_key(s, other) {
                let x = choose|x: int| 0 <= x < s.len() && #[trigger] s[x].0 == other;
                assert(t[x].0 == other);
            }
            assert(t[s.len() as int].0 == k);
        },
    }
}

/// Whether two character sequences are equal.
pub fn chars_equal(a: &Vec<char>, b: &Vec<char>) -> (r: bool)
    ensures
        r == (a@ == b@),
{
    if a.len() != b.len() {
        return false;
    }
    let mut i: usize = 0;
    while i < a.len()
        invariant
            a@.len() == b@.len(),
            i <= a@.len(),
            forall|t: int| 0 <= t < i ==> a@[t] == b@[t],
        decreases a.len() - i,
    {
        if a[i] != b[i] {
            return false;
        }
        i = i + 1;
    }
    assert(a@ =~= b@);
    true
}

/// Text keys bound to values; each key at most once, in insertion order.
pub struct Table<V: View> {
    entries: Vec<(Vec<char>, V)>,
}

impl<V: View> View for Table<V> {
    type V = Seq<(Seq<char>, V::V)>;

    closed spec fn view(&self) -> Self::V {
        self.entries@.map_values(|e: (Vec<char>, V)| (e.0@, e.1@))
    }
}

impl<V: View> Table<V> {
    #[verifier::type_invariant]
    spec fn well_formed(&self) -> bool {
        keys_distinct(self@)
    }

    /// An empty table.
    pub fn new() -> (r: Self)
        ensures
            r@ == Seq::<(Seq<char>, V::V)>::empty(),
    {
        let r = Table { entries: Vec::new() };
        assert(r@ =~= Seq::<(Seq<char>, V::V)>::empty());
        r
    }

    /// The number of bindings.
    pub fn len(&self) -> (r: usize)
        ensures
            r == self@.len(),
            keys_distinct(self@),
    {
        proof {
            use_type_invariant(self);
        }
        self.entries.len()
    }

    /// The key of the binding at position `i`.
    pub fn key_at(&self, i: usize) -> (r: &Vec<char>)
        requires
            i < self@.len(),
        ensures
            r@ == self@[i as int].0,
    {
        &self.entries[i].0
    }

    /// The value of the binding at position `i`.
    pub fn value_at(&self, i: usize) -> (r: &V)
        requires
            i < self@.len(),
        ensures
            r@ == self@[i as int].1,
    {
        &self.entries[i].1
    }

    /// The position of the binding for `key`, if any.
    pub fn position(&self, key: &Vec<char>) -> (r: Option<usize>)
        ensures
            match r {
                Some(i) => i < self@.len() && find_key(self@, key@) == Some(i as int),
                None => find_key(self@, key@) is None,
            },
    {
        let mut j: usize = self.entries.len();
        while j > 0
            invariant
                j <= self@.len(),
                self@.len() == self.entries@.len(),
                forall|t: int| j <= t < self@.len() ==> #[trigger] self@[t].0 != key@,
            decreases j,
        {
            let same = chars_equal(&self.entries[j - 1].0, key);
            if same {
                proof {
                    lemma_find_key_at(self@, key@, j - 1);
                }
                return Some(j - 1);
            }
            j = j - 1;
        }
        proof {
            lemma_find_key(self@, key@);
            if find_key(self@, key@) is Some {
                let i = find_key(self@, key@)->0;
                assert(self@[i].0 == key@);
            }
        }
        None
    }

    /// The value bound to `key`, if any.
    pub fn get(&self, key: &str) -> (r: Option<&V>)
        ensures
            match r {
                Some(v) => lookup(self@, key@) == Some(v@),
                None => lookup(self@, key@) is None,
            },
    {
        let k = chars_of(key);
        match self.position(&k) {
            Some(i) => Some(&self.entries[i].1),
            None => None,
        }
    }

    /// Whether `key` is bound.
    pub fn contains_key(&self, key: &str) -> (r: bool)
        ensures
            r == has_key(self@, key@),
    {
        let k = chars_of(key);
        let r = self.position(&k);
        proof {
            lemma_find_key(self@, key@);
        }
        r.is_some()
    }

    /// Binds `key` to `value`, replacing an existing binding in place.
    pub fn insert(&mut self, key: &str, value: V)
        ensures
            final(self)@ == put(old(self)@, key@, value@),
            keys_distinct(final(self)@),
    {
        proof {
            use_type_invariant(&*self);
        }
        let k = chars_of(key);
        let pos = self.position(&k);
        let mut es: Vec<(Vec<char>, V)> = Vec::new();
        std::mem::swap(&mut es, &mut self.entries);
        let ghost before = es@.map_values(|e: (Vec<char>, V)| (e.0@, e.1@));
        assert(before == old(self)@);
        match pos {
            Some(i) => {
                es.set(i, (k, value));
                assert(es@.map_values(|e: (Vec<char>, V)| (e.0@, e.1@)) =~= before.update(
                    i as int,
                    (key@, value@),
                ));
            },
            None => {
                es.push((k, value));
                assert(es@.map_values(|e: (Vec<char>, V)| (e.0@, e.1@)) =~= before.push(
                    (key@, value@),
                ));
            },
        }
        proof {
            lemma_put(before, key@, value@, key@);
        }
        self.entries = es;
    }
}

} // verus!
