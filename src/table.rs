//! A map keyed by strings, kept as a vector of pairs with unique keys.
use vstd::prelude::*;

use crate::text::same_text;

verus! {

/// The map that a sequence of pairs stands for: a later pair overrides an earlier one.
pub open spec fn pairs_map<V>(s: Seq<(String, V)>) -> Map<Seq<char>, V>
    decreases s.len(),
{
    if s.len() == 0 {
        Map::empty()
    } else {
        pairs_map(s.drop_last()).insert(s.last().0@, s.last().1)
    }
}

/// No key occurs twice in `s`.
pub open spec fn keys_unique<V>(s: Seq<(String, V)>) -> bool {
    forall|i: int, j: int| 0 <= i < j < s.len() ==> s[i].0@ != s[j].0@
}

/// `i` is the last position of `s` whose key is `k`.
pub open spec fn last_key_at<V>(s: Seq<(String, V)>, k: Seq<char>, i: int) -> bool {
    &&& 0 <= i < s.len()
    &&& s[i].0@ == k
    &&& forall|j: int| i < j < s.len() ==> s[j].0@ != k
}

pub proof fn lemma_pairs_map_absent<V>(s: Seq<(String, V)>, k: Seq<char>)
    requires
        forall|j: int| 0 <= j < s.len() ==> s[j].0@ != k,
    ensures
        !pairs_map(s).contains_key(k),
    decreases s.len(),
{
    if s.len() > 0 {
        lemma_pairs_map_absent(s.drop_last(), k);
    }
}

pub proof fn lemma_pairs_map_last<V>(s: Seq<(String, V)>, k: Seq<char>, i: int)
    requires
        last_key_at(s, k, i),
    ensures
        pairs_map(s).contains_key(k),
        pairs_map(s)[k] == s[i].1,
    decreases s.len(),
{
    if i < s.len() - 1 {
        lemma_pairs_map_last(s.drop_last(), k, i);
    }
}

pub proof fn lemma_pairs_map_update<V>(s: Seq<(String, V)>, i: int, x: (String, V))
    requires
        last_key_at(s, x.0@, i),
    ensures
        pairs_map(s.update(i, x)) == pairs_map(s).insert(x.0@, x.1),
    decreases s.len(),
{
    let t = s.update(i, x);
    if i == s.len() - 1 {
        assert(t.drop_last() =~= s.drop_last());
        assert(pairs_map(t) =~= pairs_map(s).insert(x.0@, x.1));
    } else {
        assert(t.drop_last() =~= s.drop_last().update(i, x));
        lemma_pairs_map_update(s.drop_last(), i, x);
        assert(pairs_map(t) =~= pairs_map(s).insert(x.0@, x.1));
    }
}

/// A map from strings to values that keeps its pairs in insertion order.
pub struct Table<V> {
    pub entries: Vec<(String, V)>,
}

impl<V> View for Table<V> {
    type V = Map<Seq<char>, V>;

    open spec fn view(&self) -> Map<Seq<char>, V> {
        pairs_map(self.entries@)
    }
}

impl<V> Table<V> {
    /// Keys are unique.
    pub open spec fn wf(&self) -> bool {
        keys_unique(self.entries@)
    }

    pub fn new() -> (r: Self)
        ensures
            r@ == Map::<Seq<char>, V>::empty(),
            r.wf(),
    {
        Table { entries: Vec::new() }
    }

    /// The position of the last pair whose key is `k`.
    pub fn position(&self, k: &str) -> (r: Option<usize>)
        ensures
            r matches Some(i) ==> last_key_at(self.entries@, k@, i as int),
            r is None ==> forall|j: int| 0 <= j < self.entries@.len() ==> self.entries@[j].0@ != k@,
            r is None <==> !self@.contains_key(k@),
            r matches Some(i) ==> self@.contains_key(k@) && self@[k@] == self.entries@[i as int].1,
    {
        let mut n: usize = self.entries.len();
        while n > 0
            invariant
                n <= self.entries@.len(),
                forall|j: int| n <= j < self.entries@.len() ==> self.entries@[j].0@ != k@,
            decreases n,
        {
            if same_text(self.entries[n - 1].0.as_str(), k) {
                proof {
                    lemma_pairs_map_last(self.entries@, k@, n - 1);
                }
                return Some(n - 1);
            }
            n -= 1;
        }
        proof {
            lemma_pairs_map_absent(self.entries@, k@);
        }
        None
    }

    pub fn get(&self, k: &str) -> (r: Option<&V>)
        ensures
            r is Some <==> self@.contains_key(k@),
            r matches Some(v) ==> *v == self@[k@],
    {
        match self.position(k) {
            Some(i) => Some(&self.entries[i].1),
            None => None,
        }
    }

    pub fn contains_key(&self, k: &str) -> (r: bool)
        ensures
            r == self@.contains_key(k@),
    {
        self.position(k).is_some()
    }

    /// Sets the value of `k`, replacing any earlier value.
    pub fn insert(&mut self, k: String, v: V)
        ensures
            final(self)@ == old(self)@.insert(k@, v),
            old(self).wf() ==> final(self).wf(),
    {
        match self.position(k.as_str()) {
            Some(i) => {
                let ghost x = (k, v);
                proof {
                    lemma_pairs_map_update(self.entries@, i as int, x);
                }
                self.entries.set(i, (k, v));
            },
            None => {
                self.entries.push((k, v));
                assert(self.entries@.drop_last() =~= old(self).entries@);
            },
        }
    }
}

} // verus!
