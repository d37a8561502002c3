//! The parameter map: keys with their values, kept in order of arrival.

use vstd::prelude::*;
use vstd::hash_map::StringHashMap;
use crate::model::{
    appended, entries_map, entry_index, has_entry, lemma_appended_map, lemma_entries_domain,
    well_formed,
};

verus! {

/// A mapping from parameter name to the list of its values.
///
/// Keys are unique and every key has at least one value. The entries stand in
/// the order in which their keys first arrived, and the values of a key in the
/// order in which they arrived. A hash index from key to the place of its
/// entry makes a lookup take constant expected time.
pub struct ParameterMap {
    entries: Vec<(String, Vec<String>)>,
    index: StringHashMap<usize>,
}

impl View for ParameterMap {
    type V = Map<Seq<char>, Seq<Seq<char>>>;

    /// The map from each key to its values.
    open spec fn view(&self) -> Map<Seq<char>, Seq<Seq<char>>> {
        entries_map(self.spec_entries())
    }
}

impl ParameterMap {
    /// The entries as mathematical values: each key with its values.
    pub closed spec fn spec_entries(&self) -> Seq<(Seq<char>, Seq<Seq<char>>)> {
        self.entries.deep_view()
    }

    /// Whether the map is valid: the entries are well formed and the index
    /// leads from each key to the place of its entry.
    pub closed spec fn wf(&self) -> bool {
        let entries = self.spec_entries();
        &&& well_formed(entries)
        &&& forall|key: Seq<char>| #[trigger]
            self.index@.contains_key(key) ==> 0 <= self.index@[key] < entries.len()
                && entries[self.index@[key] as int].0 == key
        &&& forall|i: int|
            0 <= i < entries.len() ==> self.index@.contains_key((#[trigger] entries[i]).0)
                && self.index@[entries[i].0] == i
    }

    /// A map without entries.
    pub fn new() -> (map: Self)
        ensures
            map.wf(),
            map.spec_entries() == Seq::<(Seq<char>, Seq<Seq<char>>)>::empty(),
    {
        ParameterMap { entries: Vec::new(), index: StringHashMap::new() }
    }

    /// Adds one value for `key`, after the values that the key already has.
    pub fn append(&mut self, key: String, value: String)
        requires
            old(self).wf(),
        ensures
            final(self).wf(),
            final(self).spec_entries() == appended(old(self).spec_entries(), key@, value@),
            final(self)@ == old(self)@.insert(
                key@,
                if old(self)@.contains_key(key@) {
                    old(self)@[key@].push(value@)
                } else {
                    seq![value@]
                },
            ),
    {
        let ghost before = self.spec_entries();
        proof {
            lemma_appended_map(before, key@, value@);
        }
        let found: Option<usize> = match self.index.get(key.as_str()) {
            Some(i) => Some(*i),
            None => None,
        };
        match found {
            Some(i) => {
                assert(before[i as int].0 == key@);
                assert(has_entry(before, key@));
                assert(entry_index(before, key@) == i);
                let ghost values = self.entries[i as int].1;
                self.entries[i].1.push(value);
                proof {
                    let after = self.spec_entries();
                    assert(self.entries[i as int].1.deep_view() =~= values.deep_view().push(value@));
                    assert(after =~= before.update(i as int, (key@, before[i as int].1.push(value@))));
                }
            },
            None => {
                assert(!has_entry(before, key@)) by {
                    if has_entry(before, key@) {
                        let j = entry_index(before, key@);
                        assert(self.index@.contains_key(before[j].0));
                    }
                }
                let i: usize = self.entries.len();
                self.index.insert(key.clone(), i);
                self.entries.push((key, vec![value]));
                proof {
                    let after = self.spec_entries();
                    assert(self.entries[i as int].1.deep_view() =~= seq![value@]);
                    assert(after =~= before.push((key@, seq![value@])));
                }
            },
        }
    }
}

impl ParameterMap {
    /// The number of keys.
    pub fn len(&self) -> (n: usize)
        requires
            self.wf(),
        ensures
            n == self.spec_entries().len(),
            n == self@.dom().len(),
    {
        proof {
            self.lemma_domain();
        }
        self.entries.len()
    }

    /// Whether the map has no key.
    pub fn is_empty(&self) -> (empty: bool)
        requires
            self.wf(),
        ensures
            empty <==> self.spec_entries().len() == 0,
            empty <==> self@.dom().len() == 0,
    {
        self.len() == 0
    }

    /// Whether `key` has values.
    pub fn contains_key(&self, key: &str) -> (present: bool)
        requires
            self.wf(),
        ensures
            present <==> self@.contains_key(key@),
    {
        proof {
            self.lemma_index(key@);
        }
        self.index.contains_key(key)
    }

    /// The values of `key`, in the order in which they arrived, or `None`
    /// where the key has none.
    pub fn get(&self, key: &str) -> (values: Option<&Vec<String>>)
        requires
            self.wf(),
        ensures
            values is Some <==> self@.contains_key(key@),
            values matches Some(list) ==> list.deep_view() == self@[key@] && list.len() > 0,
    {
        proof {
            self.lemma_index(key@);
        }
        match self.index.get(key) {
            Some(i) => {
                assert(self.spec_entries()[*i as int].1.len() > 0);
                Some(&self.entries[*i].1)
            },
            None => None,
        }
    }

    /// The entries, each key with its values, in the order in which the keys
    /// first arrived.
    pub fn entries(&self) -> (entries: &Vec<(String, Vec<String>)>)
        ensures
            entries.deep_view() == self.spec_entries(),
    {
        &self.entries
    }

    /// The index holds a key exactly if the map does, and leads to the
    /// entry from which the map has the key's values.
    proof fn lemma_index(&self, key: Seq<char>)
        requires
            self.wf(),
        ensures
            self.index@.contains_key(key) <==> self@.contains_key(key),
            self.index@.contains_key(key) ==> {
                &&& 0 <= self.index@[key] < self.entries.len()
                &&& self.entries[self.index@[key] as int].1.deep_view() == self@[key]
            },
    {
        let entries = self.spec_entries();
        if has_entry(entries, key) {
            let i = entry_index(entries, key);
            assert(self.index@.contains_key(entries[i].0));
        }
        if self.index@.contains_key(key) {
            assert(entries[self.index@[key] as int].0 == key);
            assert(entry_index(entries, key) == self.index@[key]);
        }
    }

    /// In a valid map no key occurs twice and every key has at least one
    /// value.
    pub proof fn lemma_well_formed(&self)
        requires
            self.wf(),
        ensures
            well_formed(self.spec_entries()),
            forall|key: Seq<char>| #[trigger] self@.contains_key(key) ==> self@[key].len() > 0,
    {
        let entries = self.spec_entries();
        assert forall|key: Seq<char>| #[trigger] self@.contains_key(key) implies self@[key].len() > 0 by {
            let i = entry_index(entries, key);
            assert(entries[i].1.len() > 0);
        }
    }

    /// The keys of a valid map are finitely many, as many as its entries.
    pub proof fn lemma_domain(&self)
        requires
            self.wf(),
        ensures
            self@.dom().finite(),
            self@.dom().len() == self.spec_entries().len(),
    {
        lemma_entries_domain(self.spec_entries());
    }
}

} // verus!
