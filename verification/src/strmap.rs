use vstd::prelude::*;

verus! {

/// An insertion-ordered map from string keys to values.
///
/// Entries are kept in first-insertion order with unique keys; inserting an
/// existing key overwrites its value in place. The view is the sequence of
/// (key view, value) pairs, so callers can reason both about lookups and
/// about entry order.
#[derive(Debug)]
pub struct StrMap<V> {
    entries: Vec<(String, V)>,
}

/// The value stored under key `k`, by scanning from the front.
pub open spec fn seq_get<V>(s: Seq<(Seq<char>, V)>, k: Seq<char>) -> Option<V>
    decreases s.len(),
{
    if s.len() == 0 {
        None
    } else if s[0].0 == k {
        Some(s[0].1)
    } else {
        seq_get(s.drop_first(), k)
    }
}

/// Some entry of `s` has key `k`.
pub open spec fn seq_has_key<V>(s: Seq<(Seq<char>, V)>, k: Seq<char>) -> bool {
    exists|i: int| 0 <= i < s.len() && s[i].0 == k
}

/// No two entries of `s` share a key.
pub open spec fn keys_unique<V>(s: Seq<(Seq<char>, V)>) -> bool {
    forall|i: int, j: int| 0 <= i < j < s.len() ==> s[i].0 != s[j].0
}

impl<V> View for StrMap<V> {
    type V = Seq<(Seq<char>, V)>;

    closed spec fn view(&self) -> Seq<(Seq<char>, V)> {
        Seq::new(self.entries@.len(), |i: int| (self.entries@[i].0@, self.entries@[i].1))
    }
}

/// `seq_get` finds exactly the keys that occur in `s`, and under unique keys
/// it returns the value at the (single) index holding `k`.
pub proof fn lemma_seq_get_index<V>(s: Seq<(Seq<char>, V)>, k: Seq<char>)
    ensures
        seq_get(s, k) is Some <==> seq_has_key(s, k),
        forall|i: int|
            0 <= i < s.len() && s[i].0 == k && (forall|j: int| 0 <= j < i ==> s[j].0 != k)
                ==> seq_get(s, k) == Some(s[i].1),
    decreases s.len(),
{
    if s.len() > 0 {
        lemma_seq_get_index(s.drop_first(), k);
        if s[0].0 != k {
            assert(seq_has_key(s, k) ==> seq_has_key(s.drop_first(), k)) by {
                if seq_has_key(s, k) {
                    let i = choose|i: int| 0 <= i < s.len() && s[i].0 == k;
                    assert(s.drop_first()[i - 1].0 == k);
                }
            }
            assert forall|i: int|
                0 <= i < s.len() && s[i].0 == k && (forall|j: int| 0 <= j < i ==> s[j].0 != k)
                    implies seq_get(s, k) == Some(s[i].1) by {
                assert(s.drop_first()[i - 1].0 == k);
                assert(forall|j: int|
                    0 <= j < i - 1 ==> s.drop_first()[j].0 == s[j + 1].0 && s[j + 1].0 != k);
            }
        }
    }
}

/// Under unique keys, `seq_get` returns the value at any index holding the
/// key.
pub proof fn lemma_seq_get_unique<V>(s: Seq<(Seq<char>, V)>, k: Seq<char>, i: int)
    requires
        keys_unique(s),
        0 <= i < s.len(),
        s[i].0 == k,
    ensures
        seq_get(s, k) == Some(s[i].1),
    decreases s.len(),
{
    if i == 0 {
    } else {
        assert(s[0].0 != s[i].0);
        assert(keys_unique(s.drop_first())) by {
            assert forall|x: int, y: int|
                0 <= x < y < s.drop_first().len() implies s.drop_first()[x].0
                != s.drop_first()[y].0 by {
                assert(s.drop_first()[x] == s[x + 1] && s.drop_first()[y] == s[y + 1]);
            }
        }
        assert(s.drop_first()[i - 1] == s[i]);
        lemma_seq_get_unique(s.drop_first(), k, i - 1);
    }
}

impl<V> StrMap<V> {
    /// Creates an empty map.
    pub fn new() -> (r: StrMap<V>)
        ensures
            r@ == Seq::<(Seq<char>, V)>::empty(),
    {
        StrMap { entries: Vec::new() }
    }

    /// Number of entries.
    pub fn len(&self) -> (r: usize)
        ensures
            r == self@.len(),
    {
        self.entries.len()
    }

    /// The index of the entry holding `k`, if any; scanning from the front.
    fn index_of(&self, k: &String) -> (r: Option<usize>)
        ensures
            match r {
                Some(i) => i < self@.len() && self@[i as int].0 == k@ && forall|j: int|
                    0 <= j < i ==> self@[j].0 != k@,
                None => forall|j: int| 0 <= j < self@.len() ==> self@[j].0 != k@,
            },
    {
        let n = self.entries.len();
        for i in 0..n
            invariant
                n == self@.len(),
                forall|j: int| 0 <= j < i ==> self@[j].0 != k@,
        {
            if self.entries[i].0 == *k {
                return Some(i);
            }
        }
        None
    }

    /// Membership test for key `k`.
    pub fn contains_key(&self, k: &String) -> (r: bool)
        ensures
            r == seq_has_key(self@, k@),
    {
        proof {
            lemma_seq_get_index(self@, k@);
        }
        self.index_of(k).is_some()
    }

    /// Looks up the value stored under `k`.
    pub fn get(&self, k: &String) -> (r: Option<&V>)
        ensures
            match r {
                Some(v) => seq_get(self@, k@) == Some(*v),
                None => seq_get(self@, k@) is None,
            },
    {
        proof {
            lemma_seq_get_index(self@, k@);
        }
        match self.index_of(k) {
            Some(i) => Some(&self.entries[i].1),
            None => None,
        }
    }

    /// Inserts `v` under `k`: overwrites in place if `k` is present,
    /// otherwise appends a new entry.
    pub fn insert(&mut self, k: String, v: V)
        ensures
            seq_has_key(old(self)@, k@) ==> exists|i: int|
                0 <= i < old(self)@.len() && old(self)@[i].0 == k@ && final(self)@ == old(
                    self,
                )@.update(i, (k@, v)),
            !seq_has_key(old(self)@, k@) ==> final(self)@ == old(self)@.push((k@, v)),
            keys_unique(old(self)@) ==> keys_unique(final(self)@),
            seq_get(final(self)@, k@) == Some(v),
            forall|k2: Seq<char>| k2 != k@ ==> seq_get(final(self)@, k2) == seq_get(old(self)@, k2),
    {
        proof {
            lemma_seq_get_index(self@, k@);
        }
        let ghost pre = self@;
        match self.index_of(&k) {
            Some(i) => {
                let entry = &mut self.entries[i];
                entry.0 = k;
                entry.1 = v;
                proof {
                    assert(self@ =~= pre.update(i as int, (pre[i as int].0, self@[i as int].1)));
                    lemma_seq_get_update(pre, i as int, self@[i as int].1);
                }
            },
            None => {
                self.entries.push((k, v));
                proof {
                    assert(self@ =~= pre.push((self@[pre.len() as int].0, v)));
                    lemma_seq_get_push(pre, self@[pre.len() as int].0, v);
                }
            },
        }
    }

    /// Borrows the entry at position `i` (first-insertion order).
    pub fn entry_at(&self, i: usize) -> (r: &(String, V))
        requires
            i < self@.len(),
        ensures
            r.0@ == self@[i as int].0,
            r.1 == self@[i as int].1,
    {
        &self.entries[i]
    }
}

/// Updating the entry at `i` (whose key stays fixed) changes only that key's
/// lookup result.
pub proof fn lemma_seq_get_update<V>(s: Seq<(Seq<char>, V)>, i: int, v: V)
    requires
        0 <= i < s.len(),
        forall|j: int| 0 <= j < i ==> s[j].0 != s[i].0,
    ensures
        seq_get(s.update(i, (s[i].0, v)), s[i].0) == Some(v),
        forall|k2: Seq<char>|
            k2 != s[i].0 ==> seq_get(s.update(i, (s[i].0, v)), k2) == seq_get(s, k2),
    decreases s.len(),
{
    let t = s.update(i, (s[i].0, v));
    if i == 0 {
        assert(t[0].0 == s[0].0);
        assert forall|k2: Seq<char>| k2 != s[i].0 implies seq_get(t, k2) == seq_get(s, k2) by {
            assert(t.drop_first() =~= s.drop_first());
        }
    } else {
        lemma_seq_get_update(s.drop_first(), i - 1, v);
        assert(t.drop_first() =~= s.drop_first().update(i - 1, (s[i].0, v)));
        assert(s.drop_first()[i - 1].0 == s[i].0);
        assert(t[0].0 == s[0].0 && s[0].0 != s[i].0);
        assert forall|k2: Seq<char>| k2 != s[i].0 implies seq_get(t, k2) == seq_get(s, k2) by {
            if s[0].0 == k2 {
                assert(seq_get(t, k2) == Some(t[0].1));
            } else {
                assert(seq_get(t, k2) == seq_get(t.drop_first(), k2));
                assert(seq_get(s, k2) == seq_get(s.drop_first(), k2));
            }
        }
        assert(seq_get(t, s[i].0) == seq_get(t.drop_first(), s[i].0));
    }
}

/// Appending an entry with a fresh key adds that key's lookup result and
/// changes no other.
pub proof fn lemma_seq_get_push<V>(s: Seq<(Seq<char>, V)>, k: Seq<char>, v: V)
    requires
        forall|j: int| 0 <= j < s.len() ==> s[j].0 != k,
    ensures
        seq_get(s.push((k, v)), k) == Some(v),
        forall|k2: Seq<char>| k2 != k ==> seq_get(s.push((k, v)), k2) == seq_get(s, k2),
    decreases s.len(),
{
    if s.len() == 0 {
        assert forall|k2: Seq<char>| k2 != k implies seq_get(s.push((k, v)), k2) == seq_get(
            s,
            k2,
        ) by {
            assert(s.push((k, v))[0].0 == k);
            assert(s.push((k, v)).drop_first() =~= s);
        }
    } else {
        lemma_seq_get_push(s.drop_first(), k, v);
        let t = s.push((k, v));
        assert(t.drop_first() =~= s.drop_first().push((k, v)));
        assert(t[0] == s[0]);
        assert forall|k2: Seq<char>| k2 != k implies seq_get(t, k2) == seq_get(s, k2) by {
            if s[0].0 == k2 {
                assert(seq_get(t, k2) == Some(t[0].1));
            } else {
                assert(seq_get(t, k2) == seq_get(t.drop_first(), k2));
                assert(seq_get(s, k2) == seq_get(s.drop_first(), k2));
            }
        }
    }
}

} // verus!
