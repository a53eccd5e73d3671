//! A map keyed by symbols that remembers the order in which they came.

use crate::domain::sort;
use crate::domain::sort::sort_texts;
use crate::domain::text;
use vstd::hash_map::StringHashMap;
use vstd::prelude::*;

verus! {

/// A map from symbols to values. Iteration follows the order of first insertion.
pub struct SymbolTable<V> {
    keys: Vec<String>,
    values: Vec<V>,
    index: StringHashMap<usize>,
}

impl<V> View for SymbolTable<V> {
    type V = Map<Seq<char>, V>;

    closed spec fn view(&self) -> Map<Seq<char>, V> {
        Map::new(
            |key: Seq<char>| self.index@.contains_key(key),
            |key: Seq<char>| self.values@[self.index@[key] as int],
        )
    }
}

impl<V> SymbolTable<V> {
    /// The symbols in order of first insertion.
    pub closed spec fn symbols(&self) -> Seq<Seq<char>> {
        self.keys@.map_values(|key: String| key@)
    }

    /// The lookup index and the two lists agree.
    pub closed spec fn wf(&self) -> bool {
        &&& self.keys@.len() == self.values@.len()
        &&& forall|i: int|
            #![trigger self.keys@[i]]
            0 <= i < self.keys@.len() ==> self.index@.contains_key(self.keys@[i]@)
                && self.index@[self.keys@[i]@] == i
        &&& forall|key: Seq<char>| #[trigger]
            self.index@.contains_key(key) ==> self.index@[key] < self.keys@.len()
                && self.keys@[self.index@[key] as int]@ == key
    }

    /// The symbols list every key of the map once.
    pub proof fn lemma_symbols(&self)
        requires
            self.wf(),
        ensures
            self.symbols().no_duplicates(),
            forall|i: int|
                #![trigger self.symbols()[i]]
                0 <= i < self.symbols().len() ==> self@.contains_key(self.symbols()[i]),
            forall|key: Seq<char>| #[trigger]
                self@.contains_key(key) ==> self.symbols().contains(key),
    {
        assert forall|i: int, j: int|
            0 <= i < self.symbols().len() && 0 <= j < self.symbols().len() && i
                != j implies self.symbols()[i] != self.symbols()[j] by {
            assert(self.index@[self.keys@[i]@] == i);
            assert(self.index@[self.keys@[j]@] == j);
        }
        assert forall|key: Seq<char>| #[trigger]
            self@.contains_key(key) implies self.symbols().contains(key) by {
            assert(self.symbols()[self.index@[key] as int] == key);
        }
    }

    /// There are as many symbols as keys.
    pub proof fn lemma_key_count(&self)
        requires
            self.wf(),
        ensures
            self@.dom().finite(),
            self@.len() == self.symbols().len(),
    {
        self.lemma_symbols();
        self.symbols().unique_seq_to_set();
        assert(self.symbols().to_set() =~= self@.dom()) by {
            assert forall|key: Seq<char>| #[trigger]
                self.symbols().to_set().contains(key) implies self@.contains_key(key) by {
                let i = choose|i: int| 0 <= i < self.symbols().len() && self.symbols()[i] == key;
                assert(self@.contains_key(self.symbols()[i]));
            }
        }
        vstd::seq_lib::seq_to_set_is_finite(self.symbols());
    }

    /// There are no more symbols than a machine word counts.
    pub proof fn lemma_len(&self)
        ensures
            self.symbols().len() <= usize::MAX,
    {
        assert(self.keys.len() == self.symbols().len());
    }

    pub fn new() -> (r: Self)
        ensures
            r.wf(),
            r@ == Map::<Seq<char>, V>::empty(),
            r.symbols() == Seq::<Seq<char>>::empty(),
    {
        let r = SymbolTable { keys: Vec::new(), values: Vec::new(), index: StringHashMap::new() };
        assert(r@ =~= Map::<Seq<char>, V>::empty());
        r
    }

    pub fn len(&self) -> (n: usize)
        ensures
            n == self.symbols().len(),
    {
        self.keys.len()
    }

    pub fn is_empty(&self) -> (r: bool)
        ensures
            r == (self.symbols().len() == 0),
    {
        self.keys.len() == 0
    }

    pub fn contains_key(&self, key: &str) -> (r: bool)
        ensures
            r == self@.contains_key(key@),
    {
        self.index.contains_key(key)
    }

    pub fn get(&self, key: &str) -> (r: Option<&V>)
        requires
            self.wf(),
        ensures
            match r {
                Some(value) => self@.contains_key(key@) && *value == self@[key@],
                None => !self@.contains_key(key@),
            },
    {
        match self.index.get(key) {
            Some(i) => Some(&self.values[*i]),
            None => None,
        }
    }

    pub fn get_mut(&mut self, key: &str) -> (r: Option<&mut V>)
        requires
            old(self).wf(),
        ensures
            final(self).wf(),
            final(self).symbols() == old(self).symbols(),
            r is Some <==> old(self)@.contains_key(key@),
            match r {
                Some(value) => *value == old(self)@[key@] && final(self)@ == old(self)@.insert(
                    key@,
                    *final(value),
                ),
                None => *final(self) == *old(self),
            },
    {
        match self.index.get(key) {
            Some(i) => {
                let i: usize = *i;
                Some(&mut self.values[i])
            },
            None => None,
        }
    }

    /// Sets the value of `key`, which joins the end of the order if it is new.
    pub fn insert(&mut self, key: String, value: V)
        requires
            old(self).wf(),
        ensures
            final(self).wf(),
            final(self)@ == old(self)@.insert(key@, value),
            final(self).symbols() == if old(self)@.contains_key(key@) {
                old(self).symbols()
            } else {
                old(self).symbols().push(key@)
            },
    {
        match self.index.get(key.as_str()) {
            Some(i) => {
                let i: usize = *i;
                self.values.set(i, value);
                assert(self@ =~= old(self)@.insert(key@, value));
            },
            None => {
                let i: usize = self.keys.len();
                self.index.insert(key.clone(), i);
                self.keys.push(key);
                self.values.push(value);
                assert(self.symbols() =~= old(self).symbols().push(key@));
                assert(self@ =~= old(self)@.insert(key@, value));
            },
        }
    }

    pub fn key_at(&self, i: usize) -> (key: &String)
        requires
            self.wf(),
            i < self.symbols().len(),
        ensures
            key@ == self.symbols()[i as int],
    {
        &self.keys[i]
    }

    pub fn value_at(&self, i: usize) -> (value: &V)
        requires
            self.wf(),
            i < self.symbols().len(),
        ensures
            self@.contains_key(self.symbols()[i as int]),
            *value == self@[self.symbols()[i as int]],
    {
        assert(self.index@[self.keys@[i as int]@] == i);
        &self.values[i]
    }

    /// The symbols in lexicographic order.
    pub fn sorted_symbols(&self) -> (r: Vec<String>)
        requires
            self.wf(),
        ensures
            text::texts(r@) == sort::sorted_texts(self.symbols()),
            r@.len() == self.symbols().len(),
            forall|k: int| 0 <= k < r@.len() ==> self@.contains_key((#[trigger] r@[k])@),
    {
        let n: usize = self.len();
        let mut keys: Vec<&str> = Vec::new();
        let mut i: usize = 0;
        while i < n
            invariant
                self.wf(),
                n == self.symbols().len(),
                i <= n,
                sort::views(keys@) == self.symbols().take(i as int),
            decreases n - i,
        {
            let ghost before = keys@;
            let key: &str = self.key_at(i).as_str();
            keys.push(key);
            i += 1;
            assert(sort::views(keys@) =~= sort::views(before).push(key@));
            assert(self.symbols().take(i as int) =~= sort::views(before).push(key@));
        }
        let ghost list = self.symbols();
        proof {
            assert(list.take(n as int) =~= list);
            assert(keys@.len() == sort::views(keys@).len());
            self.lemma_symbols();
        }
        let order = sort_texts(&keys);
        let mut r: Vec<String> = Vec::new();
        let mut j: usize = 0;
        while j < order.len()
            invariant
                self.wf(),
                list == self.symbols(),
                forall|i: int|
                    #![trigger list[i]]
                    0 <= i < list.len() ==> self@.contains_key(list[i]),
                order@.len() == list.len(),
                forall|k: int| 0 <= k < order@.len() ==> (#[trigger] order@[k]) < list.len(),
                order@ == sort::stable_order(list.len(), sort::text_first(list)),
                j <= order@.len(),
                r@.len() == j,
                text::texts(r@) == sort::sorted_texts(list).take(j as int),
                forall|k: int| 0 <= k < r@.len() ==> self@.contains_key((#[trigger] r@[k])@),
            decreases order@.len() - j,
        {
            let ghost before = r@;
            let key = self.key_at(order[j]).clone();
            r.push(key);
            assert(text::texts(r@) =~= text::texts(before).push(key@));
            j += 1;
            assert(sort::sorted_texts(list).take(j as int) =~= text::texts(before).push(
                list[order@[j - 1] as int],
            ));
        }
        assert(sort::sorted_texts(list).take(j as int) =~= sort::sorted_texts(list));
        r
    }
}

impl<V> Default for SymbolTable<V> {
    fn default() -> (r: Self)
        ensures
            r.wf(),
            r@ == Map::<Seq<char>, V>::empty(),
            r.symbols() == Seq::<Seq<char>>::empty(),
    {
        Self::new()
    }
}

} // verus!
