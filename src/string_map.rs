use vstd::prelude::*;

verus! {

/// The map that a sequence of `(key, value)` pairs describes when each pair is
/// inserted in turn: a later pair with an equal key replaces an earlier one.
pub open spec fn pairs_map<V>(es: Seq<(Seq<char>, V)>) -> Map<Seq<char>, V>
    decreases es.len(),
{
    if es.len() == 0 {
        Map::empty()
    } else {
        pairs_map(es.drop_last()).insert(es.last().0, es.last().1)
    }
}

/// The keys of `es` are pairwise distinct.
pub open spec fn keys_distinct<V>(es: Seq<(Seq<char>, V)>) -> bool {
    forall|i: int, j: int| 0 <= i < j < es.len() ==> es[i].0 != es[j].0
}

pub proof fn lemma_pairs_map_dom<V>(es: Seq<(Seq<char>, V)>, k: Seq<char>)
    ensures
        pairs_map(es).contains_key(k) <==> exists|i: int| 0 <= i < es.len() && es[i].0 == k,
    decreases es.len(),
{
    if es.len() > 0 {
        lemma_pairs_map_dom(es.drop_last(), k);
        if pairs_map(es.drop_last()).contains_key(k) {
            let i = choose|i: int| 0 <= i < es.drop_last().len() && es.drop_last()[i].0 == k;
            assert(es[i].0 == k);
        }
        if exists|i: int| 0 <= i < es.len() && es[i].0 == k {
            let i = choose|i: int| 0 <= i < es.len() && es[i].0 == k;
            if i < es.len() - 1 {
                assert(es.drop_last()[i].0 == k);
            }
        }
    }
}

pub proof fn lemma_pairs_map_at<V>(es: Seq<(Seq<char>, V)>, i: int)
    requires
        keys_distinct(es),
        0 <= i < es.len(),
    ensures
        pairs_map(es).contains_key(es[i].0),
        pairs_map(es)[es[i].0] == es[i].1,
    decreases es.len(),
{
    if i < es.len() - 1 {
        lemma_pairs_map_at(es.drop_last(), i);
    }
}

/// The last index of `es` whose key is `k`, if any.
pub open spec fn last_index_of<V>(es: Seq<(Seq<char>, V)>, k: Seq<char>) -> Option<int>
    decreases es.len(),
{
    if es.len() == 0 {
        None
    } else if es.last().0 == k {
        Some(es.len() - 1)
    } else {
        last_index_of(es.drop_last(), k)
    }
}

/// A pair inserted later wins: the value under `k` is the one of the last pair
/// whose key is `k`.
pub proof fn lemma_pairs_map_last<V>(es: Seq<(Seq<char>, V)>, k: Seq<char>)
    ensures
        match last_index_of(es, k) {
            Some(i) => 0 <= i < es.len() && es[i].0 == k && pairs_map(es).contains_key(k)
                && pairs_map(es)[k] == es[i].1
                && forall|j: int| i < j < es.len() ==> es[j].0 != k,
            None => !pairs_map(es).contains_key(k) && forall|j: int| 0 <= j < es.len() ==> es[j].0 != k,
        },
    decreases es.len(),
{
    if es.len() > 0 {
        lemma_pairs_map_last(es.drop_last(), k);
        if es.last().0 != k {
            assert forall|j: int| 0 <= j < es.len() - 1 implies es[j] == es.drop_last()[j] by {}
        }
    }
}

/// A map from strings to values that keeps its entries in the order in which
/// their keys were first inserted. Each key occurs once. Two maps compare
/// equal when they hold the same entries in the same order.
#[derive(Debug, PartialEq, Eq)]
pub struct StringMap<V> {
    entries: Vec<(String, V)>,
}

/// The keys of a vector of entries, viewed as character sequences, beside the
/// views of their values.
pub open spec fn entries_view<V: View>(es: Seq<(String, V)>) -> Seq<(Seq<char>, V::V)> {
    es.map_values(|e: (String, V)| (e.0@, e.1@))
}

impl<V: View> View for StringMap<V> {
    type V = Map<Seq<char>, V::V>;

    closed spec fn view(&self) -> Map<Seq<char>, V::V> {
        pairs_map(entries_view(self.entries@))
    }
}

impl<V> StringMap<V> {
    #[verifier::type_invariant]
    spec fn wf(self) -> bool {
        forall|i: int, j: int|
            0 <= i < j < self.entries@.len() ==> self.entries@[i].0@ != self.entries@[j].0@
    }
}

impl<V: View> StringMap<V> {

    /// The entries in their order of insertion, as views.
    pub closed spec fn spec_entries(&self) -> Seq<(Seq<char>, V::V)> {
        entries_view(self.entries@)
    }

    pub fn new() -> (r: Self)
        ensures
            r@ == Map::<Seq<char>, V::V>::empty(),
            r.spec_entries().len() == 0,
    {
        let r = StringMap { entries: Vec::new() };
        assert(entries_view(r.entries@) =~= Seq::empty());
        r
    }

    pub fn len(&self) -> (r: usize)
        ensures
            r == self.spec_entries().len(),
            r == self@.len(),
    {
        proof {
            use_type_invariant(self);
            self.lemma_len();
        }
        self.entries.len()
    }

    proof fn lemma_len(&self)
        requires
            keys_distinct(entries_view(self.entries@)),
        ensures
            self@.len() == self.entries@.len(),
        decreases self.entries@.len(),
    {
        let es = entries_view(self.entries@);
        lemma_distinct_len(es);
    }

    pub fn is_empty(&self) -> (r: bool)
        ensures
            r == (self@.len() == 0),
    {
        self.len() == 0
    }

    /// The position of the entry whose key is `key`, if any.
    fn position(&self, key: &str) -> (r: Option<usize>)
        ensures
            match r {
                Some(i) => i < self.entries@.len() && self.entries@[i as int].0@ == key@,
                None => forall|i: int| 0 <= i < self.entries@.len() ==> self.entries@[i].0@ != key@,
            },
    {
        let mut i: usize = 0;
        while i < self.entries.len()
            invariant
                i <= self.entries@.len(),
                forall|j: int| 0 <= j < i ==> self.entries@[j].0@ != key@,
            decreases self.entries@.len() - i,
        {
            if str_eq(self.entries[i].0.as_str(), key) {
                return Some(i);
            }
            i = i + 1;
        }
        None
    }

    pub fn contains_key(&self, key: &str) -> (r: bool)
        ensures
            r == self@.contains_key(key@),
    {
        proof {
            use_type_invariant(self);
            lemma_pairs_map_dom(entries_view(self.entries@), key@);
        }
        let p = self.position(key);
        proof {
            if let Some(i) = p {
                assert(entries_view(self.entries@)[i as int].0 == key@);
            } else {
                assert forall|i: int| 0 <= i < self.entries@.len() implies entries_view(
                    self.entries@,
                )[i].0 != key@ by {}
            }
        }
        p.is_some()
    }

    pub fn get(&self, key: &str) -> (r: Option<&V>)
        ensures
            match r {
                Some(v) => self@.contains_key(key@) && self@[key@] == v@,
                None => !self@.contains_key(key@),
            },
    {
        proof {
            use_type_invariant(self);
            lemma_pairs_map_dom(entries_view(self.entries@), key@);
        }
        match self.position(key) {
            Some(i) => {
                proof {
                    lemma_pairs_map_at(entries_view(self.entries@), i as int);
                }
                Some(&self.entries[i].1)
            },
            None => {
                proof {
                    assert forall|i: int| 0 <= i < self.entries@.len() implies entries_view(
                        self.entries@,
                    )[i].0 != key@ by {}
                }
                None
            },
        }
    }

    /// Inserts `value` under `key`. An entry with an equal key keeps its
    /// place and takes the new value; a new key goes last.
    pub fn insert(&mut self, key: String, value: V)
        ensures
            final(self)@ == old(self)@.insert(key@, value@),
    {
        proof {
            use_type_invariant(&*self);
        }
        let ghost old_es = entries_view(self.entries@);
        let pos = self.position(key.as_str());
        let mut taken = StringMap::new();
        std::mem::swap(self, &mut taken);
        let StringMap { mut entries } = taken;
        match pos {
            Some(i) => {
                let ghost kv = key@;
                let ghost vv = value@;
                entries.set(i, (key, value));
                proof {
                    let es = entries_view(entries@);
                    assert(es =~= old_es.update(i as int, (kv, vv)));
                    assert forall|a: int, b: int| 0 <= a < b < es.len() implies es[a].0 != es[b].0 by {
                        assert(es[a].0 == old_es[a].0);
                        assert(es[b].0 == old_es[b].0);
                    }
                    assert(keys_distinct(old_es));
                    assert forall|k: Seq<char>| #[trigger] pairs_map(es).contains_key(k)
                        == old(self)@.insert(kv, vv).contains_key(k) by {
                        lemma_pairs_map_dom(es, k);
                        lemma_pairs_map_dom(old_es, k);
                        assert(es[i as int].0 == kv);
                        if exists|j: int| 0 <= j < old_es.len() && old_es[j].0 == k {
                            let j = choose|j: int| 0 <= j < old_es.len() && old_es[j].0 == k;
                            assert(es[j].0 == k);
                        }
                        if exists|j: int| 0 <= j < es.len() && es[j].0 == k {
                            let j = choose|j: int| 0 <= j < es.len() && es[j].0 == k;
                            if j != i {
                                assert(old_es[j].0 == k);
                            }
                        }
                    }
                    assert forall|k: Seq<char>| #[trigger] pairs_map(es).contains_key(k)
                        implies pairs_map(es)[k] == old(self)@.insert(kv, vv)[k] by {
                        lemma_pairs_map_dom(es, k);
                        let j = choose|j: int| 0 <= j < es.len() && es[j].0 == k;
                        lemma_pairs_map_at(es, j);
                        if j != i {
                            lemma_pairs_map_at(old_es, j);
                        }
                    }
                    assert(pairs_map(es) =~= old(self)@.insert(kv, vv));
                }
            },
            None => {
                entries.push((key, value));
                proof {
                    let es = entries_view(entries@);
                    assert(es.drop_last() =~= old_es);
                    assert forall|a: int, b: int| 0 <= a < b < es.len() implies es[a].0 != es[b].0 by {
                        if b < es.len() - 1 {
                            assert(es[a].0 == old_es[a].0);
                            assert(es[b].0 == old_es[b].0);
                        }
                    }
                }
            },
        }
        *self = StringMap { entries };
    }

    /// Takes the map apart into its entries, in their order of insertion.
    pub fn into_entries(self) -> (r: Vec<(String, V)>)
        ensures
            entries_view(r@) == self.spec_entries(),
            keys_distinct(self.spec_entries()),
            self@ == pairs_map(self.spec_entries()),
    {
        proof {
            use_type_invariant(&self);
        }
        let StringMap { entries } = self;
        entries
    }

    /// Builds a map from entries whose keys are distinct, keeping their order.
    pub fn from_entries(entries: Vec<(String, V)>) -> (r: Self)
        requires
            keys_distinct(entries_view(entries@)),
        ensures
            r.spec_entries() == entries_view(entries@),
            r@ == pairs_map(entries_view(entries@)),
    {
        proof {
            let es = entries_view(entries@);
            assert forall|i: int, j: int| 0 <= i < j < entries@.len() implies entries@[i].0@
                != entries@[j].0@ by {
                assert(es[i].0 != es[j].0);
            }
        }
        StringMap { entries }
    }

    /// The entries in their order of insertion.
    pub fn entries(&self) -> (r: &Vec<(String, V)>)
        ensures
            entries_view(r@) == self.spec_entries(),
            keys_distinct(self.spec_entries()),
            self@ == pairs_map(self.spec_entries()),
    {
        proof {
            use_type_invariant(self);
        }
        &self.entries
    }
}

pub proof fn lemma_distinct_len<V>(es: Seq<(Seq<char>, V)>)
    requires
        keys_distinct(es),
    ensures
        pairs_map(es).len() == es.len(),
        pairs_map(es).dom().finite(),
    decreases es.len(),
{
    if es.len() > 0 {
        lemma_distinct_len(es.drop_last());
        lemma_pairs_map_dom(es.drop_last(), es.last().0);
    }
}

/// Compares two strings character by character.
pub fn str_eq(a: &str, b: &str) -> (r: bool)
    ensures
        r == (a@ == b@),
{
    let n = a.unicode_len();
    if n != b.unicode_len() {
        return false;
    }
    let mut i: usize = 0;
    while i < n
        invariant
            n == a@.len(),
            n == b@.len(),
            i <= n,
            forall|j: int| 0 <= j < i ==> a@[j] == b@[j],
        decreases n - i,
    {
        if a.get_char(i) != b.get_char(i) {
            return false;
        }
        i = i + 1;
    }
    assert(a@ =~= b@);
    true
}

} // verus!
