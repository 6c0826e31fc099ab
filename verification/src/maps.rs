//! Small maps keyed by text or by block index, kept as insertion logs: a
//! later entry for a key hides the earlier ones.

use vstd::prelude::*;

verus! {

/// The map that a log of entries describes: the last entry for a key wins.
pub open spec fn log_map<K, V>(s: Seq<(K, V)>) -> Map<K, V>
    decreases s.len(),
{
    if s.len() == 0 {
        Map::empty()
    } else {
        log_map(s.drop_last()).insert(s.last().0, s.last().1)
    }
}

/// An entry at `j` for `k` that no later entry overrides gives the value of `k`.
pub proof fn lemma_log_map_last<K, V>(s: Seq<(K, V)>, j: int, k: K)
    requires
        0 <= j < s.len(),
        s[j].0 == k,
        forall|l: int| j < l < s.len() ==> s[l].0 != k,
    ensures
        log_map(s).contains_key(k),
        log_map(s)[k] == s[j].1,
    decreases s.len(),
{
    if j < s.len() - 1 {
        lemma_log_map_last(s.drop_last(), j, k);
    }
}

/// A key with no entry is not in the map.
pub proof fn lemma_log_map_absent<K, V>(s: Seq<(K, V)>, k: K)
    requires
        forall|l: int| 0 <= l < s.len() ==> s[l].0 != k,
    ensures
        !log_map(s).contains_key(k),
    decreases s.len(),
{
    if s.len() > 0 {
        lemma_log_map_absent(s.drop_last(), k);
    }
}

/// A key is in the map exactly when some entry has it.
pub proof fn lemma_log_map_dom<K, V>(s: Seq<(K, V)>, k: K)
    ensures
        log_map(s).contains_key(k) <==> exists|j: int| 0 <= j < s.len() && s[j].0 == k,
    decreases s.len(),
{
    if s.len() > 0 {
        lemma_log_map_dom(s.drop_last(), k);
        if exists|j: int| 0 <= j < s.len() - 1 && s.drop_last()[j].0 == k {
            let j = choose|j: int| 0 <= j < s.len() - 1 && s.drop_last()[j].0 == k;
            assert(s[j].0 == k);
        }
        if exists|j: int| 0 <= j < s.len() && s[j].0 == k {
            let j = choose|j: int| 0 <= j < s.len() && s[j].0 == k;
            if j < s.len() - 1 {
                assert(s.drop_last()[j].0 == k);
            }
        }
    }
}

/// A map from text keys to values.
pub struct StrMap<V> {
    pub entries: Vec<(String, V)>,
}

/// The entries of a text-keyed log, as values.
pub open spec fn str_entries<V: View>(s: Seq<(String, V)>) -> Seq<(Seq<char>, V::V)> {
    s.map_values(|e: (String, V)| (e.0@, e.1@))
}

impl<V: View> View for StrMap<V> {
    type V = Map<Seq<char>, V::V>;

    open spec fn view(&self) -> Map<Seq<char>, V::V> {
        log_map(str_entries(self.entries@))
    }
}

impl<V: View> StrMap<V> {
    /// An empty map.
    pub fn new() -> (m: Self)
        ensures
            m@ == Map::<Seq<char>, V::V>::empty(),
    {
        StrMap { entries: Vec::new() }
    }

    /// Sets the value of a key.
    pub fn insert(&mut self, k: String, v: V)
        ensures
            final(self)@ == old(self)@.insert(k@, v@),
    {
        let ghost before = self.entries@;
        self.entries.push((k, v));
        assert(str_entries(self.entries@).drop_last() =~= str_entries(before));
    }

    /// The value of a key, if it has one.
    pub fn get(&self, k: &String) -> (r: Option<&V>)
        ensures
            match r {
                Some(v) => self@.contains_key(k@) && self@[k@] == v@,
                None => !self@.contains_key(k@),
            },
    {
        let ghost s = str_entries(self.entries@);
        let mut i = self.entries.len();
        while i > 0
            invariant
                i <= self.entries.len(),
                s == str_entries(self.entries@),
                forall|l: int| i <= l < s.len() ==> s[l].0 != k@,
            decreases i,
        {
            if self.entries[i - 1].0 == *k {
                proof {
                    lemma_log_map_last(s, i - 1, k@);
                }
                return Some(&self.entries[i - 1].1);
            }
            i = i - 1;
        }
        proof {
            lemma_log_map_absent(s, k@);
        }
        None
    }
}

/// A map from block indices to anchor ids.
pub struct AnchorMap {
    pub entries: Vec<(usize, String)>,
}

/// The entries of a block-indexed log, as values.
pub open spec fn anchor_entries(s: Seq<(usize, String)>) -> Seq<(usize, Seq<char>)> {
    s.map_values(|e: (usize, String)| (e.0, e.1@))
}

impl View for AnchorMap {
    type V = Map<usize, Seq<char>>;

    open spec fn view(&self) -> Map<usize, Seq<char>> {
        log_map(anchor_entries(self.entries@))
    }
}

impl AnchorMap {
    /// An empty map.
    pub fn new() -> (m: Self)
        ensures
            m@ == Map::<usize, Seq<char>>::empty(),
    {
        AnchorMap { entries: Vec::new() }
    }

    /// Sets the anchor of a block.
    pub fn insert(&mut self, k: usize, v: String)
        ensures
            final(self)@ == old(self)@.insert(k, v@),
    {
        let ghost before = self.entries@;
        self.entries.push((k, v));
        assert(anchor_entries(self.entries@).drop_last() =~= anchor_entries(before));
    }

    /// The anchor of a block, if it has one.
    pub fn get(&self, k: usize) -> (r: Option<&String>)
        ensures
            match r {
                Some(v) => self@.contains_key(k) && self@[k] == v@,
                None => !self@.contains_key(k),
            },
    {
        let ghost s = anchor_entries(self.entries@);
        let mut i = self.entries.len();
        while i > 0
            invariant
                i <= self.entries.len(),
                s == anchor_entries(self.entries@),
                forall|l: int| i <= l < s.len() ==> s[l].0 != k,
            decreases i,
        {
            if self.entries[i - 1].0 == k {
                proof {
                    lemma_log_map_last(s, i - 1, k);
                }
                return Some(&self.entries[i - 1].1);
            }
            i = i - 1;
        }
        proof {
            lemma_log_map_absent(s, k);
        }
        None
    }
}

} // verus!
