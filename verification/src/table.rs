//! Values kept under texts, in the order in which they were first put there.
use vstd::prelude::*;

use crate::text::same;

verus! {

/// The first position from `i` on whose key is `key`.
pub open spec fn slot<V>(t: Seq<(Seq<char>, V)>, key: Seq<char>, i: int) -> Option<int>
    decreases t.len() - i,
{
    if i < 0 || i >= t.len() {
        None
    } else if t[i].0 == key {
        Some(i)
    } else {
        slot(t, key, i + 1)
    }
}

/// The value under `key`.
pub open spec fn at<V>(t: Seq<(Seq<char>, V)>, key: Seq<char>) -> Option<V> {
    match slot(t, key, 0) {
        Some(k) => Some(t[k].1),
        None => None,
    }
}

/// `t` with `value` under `key`: in its place where the key is there, else last.
pub open spec fn set_at<V>(t: Seq<(Seq<char>, V)>, key: Seq<char>, value: V) -> Seq<
    (Seq<char>, V),
> {
    match slot(t, key, 0) {
        Some(k) => t.update(k, (key, value)),
        None => t.push((key, value)),
    }
}

/// `t` with `value` under `key`, unless the key is there.
pub open spec fn or_set<V>(t: Seq<(Seq<char>, V)>, key: Seq<char>, value: V) -> Seq<
    (Seq<char>, V),
> {
    if at(t, key) is Some {
        t
    } else {
        t.push((key, value))
    }
}

/// `t` without `key`.
pub open spec fn drop_at<V>(t: Seq<(Seq<char>, V)>, key: Seq<char>) -> Seq<(Seq<char>, V)> {
    match slot(t, key, 0) {
        Some(k) => t.remove(k),
        None => t,
    }
}

/// `a` with what `b` has, under the same keys.
pub open spec fn merged<V>(a: Seq<(Seq<char>, V)>, b: Seq<(Seq<char>, V)>) -> Seq<(Seq<char>, V)>
    decreases b.len(),
{
    if b.len() == 0 {
        a
    } else {
        set_at(merged(a, b.drop_last()), b.last().0, b.last().1)
    }
}

/// No key stands twice.
pub open spec fn keys_differ<V>(t: Seq<(Seq<char>, V)>) -> bool {
    forall|i: int, j: int| 0 <= i < j < t.len() ==> (#[trigger] t[i]).0 != (#[trigger] t[j]).0
}

pub proof fn lemma_slot_of<V>(t: Seq<(Seq<char>, V)>, key: Seq<char>, i: int)
    requires
        0 <= i,
    ensures
        match slot(t, key, i) {
            Some(k) => i <= k < t.len() && t[k].0 == key && forall|j: int|
                i <= j < k ==> (#[trigger] t[j]).0 != key,
            None => forall|j: int| i <= j < t.len() ==> (#[trigger] t[j]).0 != key,
        },
    decreases t.len() - i,
{
    if i < t.len() && t[i].0 != key {
        lemma_slot_of(t, key, i + 1);
    }
}

/// The first position that holds `key` is the one that is found.
pub proof fn lemma_slot_is<V>(t: Seq<(Seq<char>, V)>, key: Seq<char>, k: int)
    requires
        0 <= k < t.len(),
        t[k].0 == key,
        forall|j: int| 0 <= j < k ==> (#[trigger] t[j]).0 != key,
    ensures
        slot(t, key, 0) == Some(k),
        at(t, key) == Some(t[k].1),
{
    lemma_slot_of(t, key, 0);
}

/// What was put under a key is found there, and nothing else changes.
pub proof fn law_set_at<V>(t: Seq<(Seq<char>, V)>, key: Seq<char>, value: V)
    ensures
        at(set_at(t, key, value), key) == Some(value),
        forall|other: Seq<char>|
            other != key ==> #[trigger] at(set_at(t, key, value), other) == at(t, other),
        keys_differ(t) ==> keys_differ(set_at(t, key, value)),
{
    let r = set_at(t, key, value);
    lemma_slot_of(t, key, 0);
    match slot(t, key, 0) {
        Some(k) => {
            assert forall|j: int| 0 <= j < k implies (#[trigger] r[j]).0 != key by {
                assert(t[j].0 != key);
            }
            lemma_slot_is(r, key, k);
        },
        None => {
            assert forall|j: int| 0 <= j < t.len() implies (#[trigger] r[j]).0 != key by {
                assert(t[j].0 != key);
            }
            lemma_slot_is(r, key, t.len() as int);
        },
    }
    assert forall|other: Seq<char>| other != key implies #[trigger] at(r, other) == at(
        t,
        other,
    ) by {
        lemma_slot_of(t, other, 0);
        lemma_slot_of(r, other, 0);
        match slot(t, other, 0) {
            Some(k) => {
                assert(r[k].0 == other && r[k].1 == t[k].1);
                assert forall|j: int| 0 <= j < k implies (#[trigger] r[j]).0 != other by {
                    assert(t[j].0 != other);
                }
                lemma_slot_is(r, other, k);
            },
            None => {
                match slot(r, other, 0) {
                    Some(k) => {
                        if k < t.len() {
                            assert(t[k].0 == other);
                        }
                    },
                    None => {},
                }
            },
        }
    }
    if keys_differ(t) {
        assert forall|i: int, j: int| 0 <= i < j < r.len() implies (#[trigger] r[i]).0
            != (#[trigger] r[j]).0 by {
            if j < t.len() {
                assert(t[i].0 != t[j].0);
            } else {
                assert(t[i].0 != key);
            }
        }
    }
}

/// What is taken out is gone, and nothing else changes.
pub proof fn law_drop_at<V>(t: Seq<(Seq<char>, V)>, key: Seq<char>)
    requires
        keys_differ(t),
    ensures
        at(drop_at(t, key), key) is None,
        forall|other: Seq<char>| other != key ==> #[trigger] at(drop_at(t, key), other) == at(t, other),
        keys_differ(drop_at(t, key)),
{
    let r = drop_at(t, key);
    lemma_slot_of(t, key, 0);
    match slot(t, key, 0) {
        Some(k) => {
            assert forall|i: int| 0 <= i < r.len() implies #[trigger] r[i] == t[if i < k {
                i
            } else {
                i + 1
            }] by {}
            lemma_slot_of(r, key, 0);
            match slot(r, key, 0) {
                Some(m) => {
                    assert(t[if m < k { m } else { m + 1 }].0 == key);
                    assert(t[k].0 == key);
                    assert(false);
                },
                None => {},
            }
            assert forall|other: Seq<char>| other != key implies #[trigger] at(r, other) == at(
                t,
                other,
            ) by {
                lemma_slot_of(t, other, 0);
                lemma_slot_of(r, other, 0);
                match slot(t, other, 0) {
                    Some(m) => {
                        let m2 = if m < k { m } else { m - 1 };
                        assert(r[m2] == t[m]);
                        assert forall|j: int| 0 <= j < m2 implies (#[trigger] r[j]).0 != other by {
                            assert(r[j] == t[if j < k { j } else { j + 1 }]);
                        }
                        lemma_slot_is(r, other, m2);
                    },
                    None => {
                        match slot(r, other, 0) {
                            Some(m) => {
                                assert(t[if m < k { m } else { m + 1 }].0 == other);
                            },
                            None => {},
                        }
                    },
                }
            }
            assert forall|i: int, j: int| 0 <= i < j < r.len() implies (#[trigger] r[i]).0
                != (#[trigger] r[j]).0 by {
                assert(t[if i < k { i } else { i + 1 }].0 != t[if j < k { j } else { j + 1 }].0);
            }
        },
        None => {},
    }
}

/// Values kept under texts.
pub struct Table<V> {
    pub entries: Vec<(String, V)>,
}

impl<V: DeepView> DeepView for Table<V> {
    type V = Seq<(Seq<char>, V::V)>;

    open spec fn deep_view(&self) -> Seq<(Seq<char>, V::V)> {
        self.entries@.map_values(|e: (String, V)| (e.0@, e.1.deep_view()))
    }
}

/// What a reference that was found stands for.
pub open spec fn deep_of<V: DeepView>(r: Option<&V>) -> Option<V::V> {
    match r {
        Some(v) => Some(v.deep_view()),
        None => None,
    }
}

impl<V: DeepView> Table<V> {
    pub fn new() -> (r: Table<V>)
        ensures
            r.deep_view() == Seq::<(Seq<char>, V::V)>::empty(),
    {
        let r = Table { entries: Vec::new() };
        assert(r.deep_view() =~= Seq::<(Seq<char>, V::V)>::empty());
        r
    }

    fn find(&self, key: &str) -> (r: Option<usize>)
        ensures
            match r {
                Some(i) => slot(self.deep_view(), key@, 0) == Some(i as int),
                None => slot(self.deep_view(), key@, 0) is None,
            },
            r matches Some(i) ==> i < self.entries.len(),
    {
        let mut i: usize = 0;
        while i < self.entries.len()
            invariant
                i <= self.entries.len(),
                slot(self.deep_view(), key@, 0) == slot(self.deep_view(), key@, i as int),
            decreases self.entries.len() - i,
        {
            if same(self.entries[i].0.as_str(), key) {
                return Some(i);
            }
            i += 1;
        }
        None
    }

    /// The value under `key`.
    pub fn get(&self, key: &str) -> (r: Option<&V>)
        ensures
            deep_of(r) == at(self.deep_view(), key@),
    {
        match self.find(key) {
            Some(i) => Some(&self.entries[i].1),
            None => None,
        }
    }

    pub fn has(&self, key: &str) -> (r: bool)
        ensures
            r == (at(self.deep_view(), key@) is Some),
    {
        self.find(key).is_some()
    }

    /// Puts `value` under `key`.
    pub fn set(&mut self, key: String, value: V)
        ensures
            final(self).deep_view() == set_at(old(self).deep_view(), key@, value.deep_view()),
    {
        let ghost before = self.deep_view();
        match self.find(key.as_str()) {
            Some(i) => {
                self.entries.set(i, (key, value));
                assert(self.deep_view() =~= set_at(before, key@, value.deep_view()));
            },
            None => {
                self.entries.push((key, value));
                assert(self.deep_view() =~= before.push((key@, value.deep_view())));
            },
        }
    }

    /// Puts `value` under `key`, unless the key is there.
    pub fn set_missing(&mut self, key: String, value: V)
        ensures
            final(self).deep_view() == or_set(old(self).deep_view(), key@, value.deep_view()),
    {
        let ghost before = self.deep_view();
        if !self.has(key.as_str()) {
            self.entries.push((key, value));
            assert(self.deep_view() =~= before.push((key@, value.deep_view())));
        }
    }

    /// Takes out what is under `key`.
    pub fn unset(&mut self, key: &str)
        ensures
            final(self).deep_view() == drop_at(old(self).deep_view(), key@),
    {
        let ghost before = self.deep_view();
        match self.find(key) {
            Some(i) => {
                self.entries.remove(i);
                assert(self.deep_view() =~= before.remove(i as int));
            },
            None => {},
        }
    }

    /// Puts everything of `other` under its keys.
    pub fn extend(&mut self, other: Table<V>)
        ensures
            final(self).deep_view() == merged(old(self).deep_view(), other.deep_view()),
    {
        let ghost before = self.deep_view();
        let ghost all = other.deep_view();
        let mut rest = other;
        let ghost mut n: int = 0;
        assert(all.take(0) =~= Seq::<(Seq<char>, V::V)>::empty());
        assert(all.subrange(0, all.len() as int) =~= rest.deep_view());
        while rest.entries.len() > 0
            invariant
                0 <= n <= all.len(),
                rest.deep_view() == all.subrange(n, all.len() as int),
                self.deep_view() == merged(before, all.take(n)),
            decreases rest.entries.len(),
        {
            let ghost was = rest.deep_view();
            let (key, value) = rest.entries.remove(0);
            proof {
                assert(was[0] == (key@, value.deep_view()));
                assert(rest.deep_view() =~= was.subrange(1, was.len() as int));
                assert(all.take(n + 1).drop_last() =~= all.take(n));
                assert(all.take(n + 1).last() == (key@, value.deep_view()));
                n = n + 1;
                assert(rest.deep_view() =~= all.subrange(n, all.len() as int));
            }
            self.set(key, value);
        }
        proof {
            assert(rest.deep_view().len() == 0);
            assert(all.take(n) =~= all);
        }
    }
}

} // verus!
