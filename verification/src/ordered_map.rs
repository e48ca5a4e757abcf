//! An insertion-ordered map from string keys to values.
//!
//! The keys live in an `ordered_hashmap::OrderedHashMap`, which remembers the
//! order in which they were first inserted and maps each key to the position
//! of its value in a vector owned by this module. Everything said about that
//! outside map is collected in the few trusted items at the top of the file;
//! the map built on them is verified.

use ordered_hashmap::OrderedHashMap;
use vstd::prelude::*;

verus! {

/// `ordered_hashmap::OrderedHashMap`, taken as an opaque type.
#[verifier::external_type_specification]
#[verifier::external_body]
#[verifier::reject_recursive_types(K)]
#[verifier::reject_recursive_types(V)]
pub struct ExOrderedHashMap<K: Eq + std::hash::Hash + Clone, V>(OrderedHashMap<K, V>);

/// The key-value pairs held by a position index, in the order in which
/// `OrderedHashMap::iter` walks them: the order of first insertion of the keys.
/// This speaks of an index that was made by `OrderedHashMap::new` and changed
/// through `insert` and `remove` alone, as every index of this module is; its
/// key list and its hash map then hold the same keys.
pub uninterp spec fn index_entries(m: OrderedHashMap<String, usize>) -> Seq<(Seq<char>, usize)>;

/// The keys of a sequence of pairs, in order.
pub open spec fn entry_keys(entries: Seq<(Seq<char>, usize)>) -> Seq<Seq<char>> {
    Seq::new(entries.len(), |i: int| entries[i].0)
}

/// The pairs after `(key, value)` was inserted: an existing key keeps its
/// place and gets the new value, a new key goes to the end.
pub open spec fn entries_with(entries: Seq<(Seq<char>, usize)>, key: Seq<char>, value: usize) -> Seq<
    (Seq<char>, usize),
> {
    if entry_keys(entries).contains(key) {
        entries.update(entry_keys(entries).index_of(key), (key, value))
    } else {
        entries.push((key, value))
    }
}

/// The pairs after `key` was removed: the later pairs move up by one place.
pub open spec fn entries_without(entries: Seq<(Seq<char>, usize)>, key: Seq<char>) -> Seq<
    (Seq<char>, usize),
> {
    if entry_keys(entries).contains(key) {
        entries.remove(entry_keys(entries).index_of(key))
    } else {
        entries
    }
}

/// `OrderedHashMap::new`: the fresh index holds no pair.
#[verifier::external_body]
fn index_new() -> (m: OrderedHashMap<String, usize>)
    ensures
        index_entries(m) == Seq::<(Seq<char>, usize)>::empty(),
{
    OrderedHashMap::new()
}

/// `OrderedHashMap::get`: the value stored under `key`, or `None` when no pair
/// has that key.
#[verifier::external_body]
fn index_get(m: &OrderedHashMap<String, usize>, key: &String) -> (r: Option<usize>)
    ensures
        match r {
            Some(p) => exists|i: int|
                0 <= i < index_entries(*m).len() && index_entries(*m)[i] == (key@, p),
            None => !entry_keys(index_entries(*m)).contains(key@),
        },
{
    m.get(key).copied()
}

/// `OrderedHashMap::insert`: a key that is present keeps its place in the
/// order and takes the new value; a key that is absent is appended.
#[verifier::external_body]
fn index_insert(m: &mut OrderedHashMap<String, usize>, key: String, value: usize)
    requires
        entry_keys(index_entries(*old(m))).no_duplicates(),
    ensures
        index_entries(*final(m)) == entries_with(index_entries(*old(m)), key@, value),
{
    m.insert(key, value);
}

/// `OrderedHashMap::remove`: the pair with this key leaves, the others keep
/// their relative order; without such a pair nothing changes.
#[verifier::external_body]
fn index_remove(m: &mut OrderedHashMap<String, usize>, key: &String)
    requires
        entry_keys(index_entries(*old(m))).no_duplicates(),
    ensures
        index_entries(*final(m)) == entries_without(index_entries(*old(m)), key@),
{
    m.remove(key);
}

/// `OrderedHashMap::keys`, collected: the keys in insertion order.
#[verifier::external_body]
fn index_keys(m: &OrderedHashMap<String, usize>) -> (r: Vec<String>)
    ensures
        r.deep_view() == entry_keys(index_entries(*m)),
{
    m.keys().cloned().collect()
}

/// In a sequence without duplicates, an element's index is the one place
/// where it stands.
pub proof fn lemma_index_of_unique(keys: Seq<Seq<char>>, i: int)
    requires
        keys.no_duplicates(),
        0 <= i < keys.len(),
    ensures
        keys.contains(keys[i]),
        keys.index_of(keys[i]) == i,
{
    assert(keys.contains(keys[i]));
    let j = keys.index_of(keys[i]);
    assert(0 <= j < keys.len() && keys[j] == keys[i]);
}

/// A map from string keys to values that remembers the order in which the
/// keys were first inserted.
pub struct OrderedMap<V> {
    index: OrderedHashMap<String, usize>,
    values: Vec<V>,
}

impl<V> OrderedMap<V> {
    /// The keys, in insertion order.
    pub closed spec fn key_seq(&self) -> Seq<Seq<char>> {
        entry_keys(index_entries(self.index))
    }

    /// The values, each at the position of its key in `key_seq`.
    pub closed spec fn val_seq(&self) -> Seq<V> {
        self.values@
    }

    /// The index maps the key at each position to that position.
    pub closed spec fn positions_agree(&self) -> bool {
        let entries = index_entries(self.index);
        forall|i: int| 0 <= i < entries.len() ==> (#[trigger] entries[i]).1 == i
    }

    /// Keys and values run in parallel, and no key occurs twice.
    pub open spec fn wf(&self) -> bool {
        &&& self.key_seq().len() == self.val_seq().len()
        &&& self.key_seq().no_duplicates()
        &&& self.positions_agree()
    }

    /// Whether `key` is present.
    pub open spec fn contains(&self, key: Seq<char>) -> bool {
        self.key_seq().contains(key)
    }

    /// The position of a key that is present.
    pub open spec fn pos(&self, key: Seq<char>) -> int {
        self.key_seq().index_of(key)
    }

    /// The value under a key that is present.
    pub open spec fn value(&self, key: Seq<char>) -> V {
        self.val_seq()[self.pos(key)]
    }

    /// The map as a finite function from keys to values.
    pub open spec fn as_map(&self) -> Map<Seq<char>, V> {
        Map::new(|k: Seq<char>| self.contains(k), |k: Seq<char>| self.value(k))
    }

    /// A present key stands at its position, which is in range.
    pub proof fn lemma_pos(&self, key: Seq<char>)
        requires
            self.wf(),
            self.contains(key),
        ensures
            0 <= self.pos(key) < self.key_seq().len(),
            self.key_seq()[self.pos(key)] == key,
    {
    }

    /// The key at a position is present, and that position is its own.
    pub proof fn lemma_key_at(&self, i: int)
        requires
            self.wf(),
            0 <= i < self.key_seq().len(),
        ensures
            self.contains(self.key_seq()[i]),
            self.pos(self.key_seq()[i]) == i,
            self.value(self.key_seq()[i]) == self.val_seq()[i],
    {
        lemma_index_of_unique(self.key_seq(), i);
    }

    /// An empty map.
    pub fn new() -> (m: Self)
        ensures
            m.wf(),
            m.key_seq() == Seq::<Seq<char>>::empty(),
            m.val_seq() == Seq::<V>::empty(),
            m.as_map() == Map::<Seq<char>, V>::empty(),
    {
        let m = OrderedMap { index: index_new(), values: Vec::new() };
        proof {
            assert(m.key_seq() =~= Seq::<Seq<char>>::empty());
            assert(m.as_map() =~= Map::<Seq<char>, V>::empty());
        }
        m
    }

    /// The number of keys.
    pub fn len(&self) -> (n: usize)
        requires
            self.wf(),
        ensures
            n == self.key_seq().len(),
    {
        self.values.len()
    }

    /// Where `key` stands in the order, if it is present.
    pub fn position(&self, key: &String) -> (r: Option<usize>)
        requires
            self.wf(),
        ensures
            r.is_some() == self.contains(key@),
            r.is_some() ==> r.unwrap() == self.pos(key@) && r.unwrap() < self.key_seq().len(),
    {
        let r = index_get(&self.index, key);
        proof {
            let entries = index_entries(self.index);
            match r {
                Some(p) => {
                    let i = choose|i: int| 0 <= i < entries.len() && entries[i] == (key@, p);
                    assert(self.key_seq()[i] == key@);
                    lemma_index_of_unique(self.key_seq(), i);
                },
                None => {},
            }
        }
        r
    }

    /// Whether `key` is present.
    pub fn contains_key(&self, key: &String) -> (r: bool)
        requires
            self.wf(),
        ensures
            r == self.contains(key@),
    {
        self.position(key).is_some()
    }

    /// The value under `key`, if it is present.
    pub fn get(&self, key: &String) -> (r: Option<&V>)
        requires
            self.wf(),
        ensures
            r.is_some() == self.contains(key@),
            r.is_some() ==> *r.unwrap() == self.value(key@),
    {
        match self.position(key) {
            Some(p) => Some(&self.values[p]),
            None => None,
        }
    }

    /// The value at a position of the order.
    pub fn value_at(&self, i: usize) -> (r: &V)
        requires
            self.wf(),
            i < self.key_seq().len(),
        ensures
            *r == self.val_seq()[i as int],
    {
        &self.values[i]
    }

    /// Mutable access to the value at a position; keys and order stay as
    /// they are.
    pub fn value_at_mut(&mut self, i: usize) -> (r: &mut V)
        requires
            old(self).wf(),
            i < old(self).key_seq().len(),
        ensures
            *r == old(self).val_seq()[i as int],
            final(self).wf(),
            final(self).key_seq() == old(self).key_seq(),
            final(self).val_seq() == old(self).val_seq().update(i as int, *final(r)),
            final(self).as_map() == old(self).as_map().insert(
                old(self).key_seq()[i as int],
                *final(r),
            ),
    {
        proof {
            self.lemma_as_map_update(i as int);
        }
        &mut self.values[i]
    }

    proof fn lemma_as_map_update(&self, i: int)
        requires
            self.wf(),
            0 <= i < self.key_seq().len(),
        ensures
            forall|other: Self, v: V|
                #![trigger other.as_map(), self.val_seq().update(i, v)]
                other.key_seq() == self.key_seq() && other.val_seq() == self.val_seq().update(i, v)
                    ==> other.as_map() == self.as_map().insert(self.key_seq()[i], v),
    {
        assert forall|other: Self, v: V|
            #![trigger other.as_map(), self.val_seq().update(i, v)]
            other.key_seq() == self.key_seq() && other.val_seq() == self.val_seq().update(
                i,
                v,
            ) implies other.as_map() == self.as_map().insert(self.key_seq()[i], v) by {
            lemma_index_of_unique(self.key_seq(), i);
            assert forall|k: Seq<char>| self.contains(k) implies #[trigger] other.value(k) == (if k
                == self.key_seq()[i] {
                v
            } else {
                self.value(k)
            }) by {
                self.lemma_pos(k);
            }
            assert(other.as_map() =~= self.as_map().insert(self.key_seq()[i], v));
        }
    }

    /// Stores `value` under `key`. A key that is present keeps its place in
    /// the order; a new key goes to the end.
    pub fn insert(&mut self, key: String, value: V)
        requires
            old(self).wf(),
        ensures
            final(self).wf(),
            final(self).as_map() == old(self).as_map().insert(key@, value),
            old(self).contains(key@) ==> final(self).key_seq() == old(self).key_seq()
                && final(self).val_seq() == old(self).val_seq().update(old(self).pos(key@), value),
            !old(self).contains(key@) ==> final(self).key_seq() == old(self).key_seq().push(key@)
                && final(self).val_seq() == old(self).val_seq().push(value),
    {
        let ghost before = *self;
        match self.position(&key) {
            Some(p) => {
                proof {
                    self.lemma_as_map_update(p as int);
                }
                self.values[p] = value;
            },
            None => {
                let n = self.values.len();
                index_insert(&mut self.index, key, n);
                self.values.push(value);
                proof {
                    let old_keys = before.key_seq();
                    assert(self.key_seq() =~= old_keys.push(key@));
                    assert forall|i: int, j: int|
                        0 <= i < self.key_seq().len() && 0 <= j < self.key_seq().len() && i
                            != j implies self.key_seq()[i] != self.key_seq()[j] by {
                        if i < old_keys.len() {
                            assert(old_keys.contains(old_keys[i]));
                        }
                        if j < old_keys.len() {
                            assert(old_keys.contains(old_keys[j]));
                        }
                    }
                    lemma_index_of_unique(self.key_seq(), n as int);
                    assert forall|k: Seq<char>| before.contains(k) implies self.contains(k)
                        && self.pos(k) == before.pos(k) by {
                        before.lemma_pos(k);
                        lemma_index_of_unique(self.key_seq(), before.pos(k));
                    }
                    assert forall|k: Seq<char>| self.contains(k) implies before.contains(k) || k
                        == key@ by {
                        self.lemma_pos(k);
                        if self.pos(k) < old_keys.len() {
                            assert(old_keys[self.pos(k)] == k);
                        }
                    }
                    assert(self.as_map() =~= before.as_map().insert(key@, value));
                }
            },
        }
    }

    /// Removes `key` and hands back its value; the keys behind it move up by
    /// one position. Without such a key nothing changes.
    pub fn remove(&mut self, key: &String) -> (r: Option<V>)
        requires
            old(self).wf(),
        ensures
            final(self).wf(),
            r.is_some() == old(self).contains(key@),
            final(self).as_map() == old(self).as_map().remove(key@),
            old(self).contains(key@) ==> r == Some(old(self).value(key@)) && final(self).key_seq()
                == old(self).key_seq().remove(old(self).pos(key@)) && final(self).val_seq() == old(
                self,
            ).val_seq().remove(old(self).pos(key@)),
            !old(self).contains(key@) ==> final(self).key_seq() == old(self).key_seq()
                && final(self).val_seq() == old(self).val_seq(),
    {
        let ghost before = *self;
        match self.position(key) {
            None => {
                proof {
                    assert(self.as_map() =~= before.as_map().remove(key@));
                }
                None
            },
            Some(p) => {
                let ghost old_entries = index_entries(self.index);
                let ghost old_keys = before.key_seq();
                index_remove(&mut self.index, key);
                let removed = self.values.remove(p);
                let keys = index_keys(&self.index);
                proof {
                    assert(index_entries(self.index) == old_entries.remove(p as int));
                    assert(self.key_seq() =~= old_keys.remove(p as int));
                    assert(keys.deep_view() == self.key_seq());
                    assert forall|i: int, j: int|
                        0 <= i < self.key_seq().len() && 0 <= j < self.key_seq().len() && i
                            != j implies self.key_seq()[i] != self.key_seq()[j] by {
                        let a = if i < p { i } else { i + 1 };
                        let b = if j < p { j } else { j + 1 };
                        assert(self.key_seq()[i] == old_keys[a]);
                        assert(self.key_seq()[j] == old_keys[b]);
                    }
                }
                let ghost new_keys = self.key_seq();
                let mut j: usize = p;
                while j < keys.len()
                    invariant
                        p <= j <= keys.len(),
                        keys.deep_view() == new_keys,
                        new_keys.no_duplicates(),
                        self.key_seq() == new_keys,
                        self.values@ == before.values@.remove(p as int),
                        new_keys.len() == self.values@.len(),
                        forall|i: int|
                            0 <= i < j ==> (#[trigger] index_entries(self.index)[i]).1 == i,
                        forall|i: int|
                            j <= i < new_keys.len() ==> (#[trigger] index_entries(self.index)[i]).1
                                == i + 1,
                    decreases keys.len() - j,
                {
                    let ghost entries = index_entries(self.index);
                    proof {
                        assert(keys.deep_view()[j as int] == keys@[j as int]@);
                        lemma_index_of_unique(new_keys, j as int);
                    }
                    index_insert(&mut self.index, keys[j].clone(), j);
                    proof {
                        assert(index_entries(self.index) == entries.update(
                            j as int,
                            (new_keys[j as int], j),
                        ));
                        assert(self.key_seq() =~= new_keys);
                    }
                    j += 1;
                }
                proof {
                    assert forall|k: Seq<char>| self.contains(k) implies before.contains(k) && k
                        != key@ && self.value(k) == before.value(k) by {
                        self.lemma_pos(k);
                        let i = self.pos(k);
                        let a = if i < p { i } else { i + 1 };
                        assert(old_keys[a] == k);
                        lemma_index_of_unique(old_keys, a);
                        before.lemma_pos(key@);
                    }
                    assert forall|k: Seq<char>| before.contains(k) && k != key@ implies self.contains(
                        k,
                    ) by {
                        before.lemma_pos(k);
                        let a = before.pos(k);
                        let i = if a < p { a } else { a - 1 };
                        assert(new_keys[i] == k);
                    }
                    assert(self.as_map() =~= before.as_map().remove(key@));
                }
                Some(removed)
            },
        }
    }

    /// The keys, in insertion order.
    pub fn keys(&self) -> (r: Vec<String>)
        requires
            self.wf(),
        ensures
            r.deep_view() == self.key_seq(),
    {
        index_keys(&self.index)
    }
}

} // verus!
