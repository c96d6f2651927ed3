//! A map that keeps its entries in the order in which their keys first came.

use vstd::prelude::*;

verus! {

/// A key of an [`OrderedMap`]. Two keys are the same key exactly when their
/// views are equal.
pub trait MapKey: View + Sized {
    /// Whether the two keys are the same key.
    fn same_key(&self, other: &Self) -> (same: bool)
        ensures
            same == (self@ == other@),
    ;

    /// A copy of the key.
    fn copy_key(&self) -> (copy: Self)
        ensures
            copy@ == self@,
    ;
}

impl MapKey for u64 {
    fn same_key(&self, other: &Self) -> (same: bool) {
        *self == *other
    }

    fn copy_key(&self) -> (copy: Self) {
        *self
    }
}

impl MapKey for Option<u64> {
    fn same_key(&self, other: &Self) -> (same: bool) {
        match (self, other) {
            (Some(a), Some(b)) => *a == *b,
            (None, None) => true,
            _ => false,
        }
    }

    fn copy_key(&self) -> (copy: Self) {
        *self
    }
}

impl MapKey for String {
    fn same_key(&self, other: &Self) -> (same: bool) {
        *self == *other
    }

    fn copy_key(&self) -> (copy: Self) {
        self.clone()
    }
}

/// The keys and values after `value` was put under `key`: where the key is
/// there, its value is replaced and its place kept; where it is not, the
/// entry comes last.
pub open spec fn put<K, V>(keys: Seq<K>, values: Seq<V>, key: K, value: V) -> (Seq<K>, Seq<V>) {
    if keys.contains(key) {
        (keys, values.update(keys.index_of(key), value))
    } else {
        (keys.push(key), values.push(value))
    }
}

/// Putting keeps the keys distinct and as many as the values.
pub proof fn lemma_put<K, V>(keys: Seq<K>, values: Seq<V>, key: K, value: V)
    requires
        keys.no_duplicates(),
        keys.len() == values.len(),
    ensures
        put(keys, values, key, value).0.no_duplicates(),
        put(keys, values, key, value).0.len() == put(keys, values, key, value).1.len(),
        put(keys, values, key, value).0.contains(key),
        forall|other: K| keys.contains(other) ==> put(keys, values, key, value).0.contains(other),
        forall|other: K| #[trigger]
            put(keys, values, key, value).0.contains(other) ==> other == key || keys.contains(
                other,
            ),
{
    let after = put(keys, values, key, value).0;
    if keys.contains(key) {
        let i = keys.index_of(key);
        assert(0 <= i < keys.len());
    } else {
        assert(after[keys.len() as int] == key);
        assert forall|other: K| keys.contains(other) implies after.contains(other) by {
            let i = choose|i: int| 0 <= i < keys.len() && keys[i] == other;
            assert(after[i] == other);
        }
        assert forall|other: K| #[trigger] after.contains(other) implies other == key
            || keys.contains(other) by {
            let i = choose|i: int| 0 <= i < after.len() && after[i] == other;
            if i < keys.len() {
                assert(keys[i] == other);
            }
        }
    }
}

/// The keys and values after each of `entries` was put in turn.
pub open spec fn put_all<K, V>(keys: Seq<K>, values: Seq<V>, entries: Seq<(K, V)>) -> (
    Seq<K>,
    Seq<V>,
)
    decreases entries.len(),
{
    if entries.len() == 0 {
        (keys, values)
    } else {
        let (keys, values) = put_all(keys, values, entries.drop_last());
        put(keys, values, entries.last().0, entries.last().1)
    }
}

/// Putting the entries of `first` and then those of `second` is putting
/// those of both.
pub proof fn lemma_put_all_add<K, V>(
    keys: Seq<K>,
    values: Seq<V>,
    first: Seq<(K, V)>,
    second: Seq<(K, V)>,
)
    ensures
        put_all(keys, values, first + second) == put_all(
            put_all(keys, values, first).0,
            put_all(keys, values, first).1,
            second,
        ),
    decreases second.len(),
{
    if second.len() == 0 {
        assert(first + second =~= first);
    } else {
        assert((first + second).drop_last() =~= first + second.drop_last());
        lemma_put_all_add(keys, values, first, second.drop_last());
    }
}

/// A map whose entries stand in the order in which their keys were first
/// inserted.
pub struct OrderedMap<K: MapKey, V> {
    keys: Vec<K>,
    values: Vec<V>,
}

/// The entries of the maps in `parts`, map after map.
pub open spec fn entries_of_all<K: MapKey, V>(parts: Seq<OrderedMap<K, V>>) -> Seq<(K::V, V)>
    decreases parts.len(),
{
    if parts.len() == 0 {
        Seq::empty()
    } else {
        entries_of_all(parts.drop_last()) + parts.last().entries()
    }
}

impl<K: MapKey, V> OrderedMap<K, V> {
    /// The keys, by their views, in order.
    pub closed spec fn keys(&self) -> Seq<K::V> {
        self.keys@.map_values(|k: K| k@)
    }

    /// The values, in the order of their keys.
    pub closed spec fn values(&self) -> Seq<V> {
        self.values@
    }

    /// The invariant of a map: each key has one value and stands once.
    pub open spec fn wf(&self) -> bool {
        &&& self.keys().len() == self.values().len()
        &&& self.keys().no_duplicates()
    }

    /// Whether `key` has an entry.
    pub open spec fn contains_key(&self, key: K::V) -> bool {
        self.keys().contains(key)
    }

    /// The value of `key`, where it has an entry.
    pub open spec fn value_of(&self, key: K::V) -> V {
        self.values()[self.keys().index_of(key)]
    }

    /// A map without entries.
    pub fn new() -> (map: Self)
        ensures
            map.wf(),
            map.keys() == Seq::<K::V>::empty(),
            map.values() == Seq::<V>::empty(),
    {
        let map = OrderedMap { keys: Vec::new(), values: Vec::new() };
        assert(map.keys() =~= Seq::<K::V>::empty());
        map
    }

    /// The number of entries.
    pub fn len(&self) -> (len: usize)
        requires
            self.wf(),
        ensures
            len == self.keys().len(),
            len == self.values().len(),
    {
        self.keys.len()
    }

    /// The place of `key` among the entries.
    pub fn position(&self, key: &K) -> (place: Option<usize>)
        requires
            self.wf(),
        ensures
            match place {
                Some(index) => index < self.keys().len() && self.keys()[index as int] == key@
                    && index == self.keys().index_of(key@),
                None => !self.keys().contains(key@),
            },
    {
        let mut index: usize = 0;
        while index < self.keys.len()
            invariant
                self.wf(),
                index <= self.keys@.len(),
                forall|i: int| 0 <= i < index ==> #[trigger] self.keys()[i] != key@,
            decreases self.keys.len() - index,
        {
            if self.keys[index].same_key(key) {
                assert(self.keys()[index as int] == key@);
                assert(self.keys().contains(key@));
                assert(self.keys()[self.keys().index_of(key@)] == key@);
                return Some(index);
            }
            index = index + 1;
        }
        None
    }

    /// The key of the entry at `index`.
    pub fn key_at(&self, index: usize) -> (key: &K)
        requires
            self.wf(),
            index < self.keys().len(),
        ensures
            key@ == self.keys()[index as int],
    {
        &self.keys[index]
    }

    /// The value of the entry at `index`.
    pub fn value_at(&self, index: usize) -> (value: &V)
        requires
            self.wf(),
            index < self.values().len(),
        ensures
            *value == self.values()[index as int],
    {
        &self.values[index]
    }

    /// The value of `key`, where it has an entry.
    pub fn get(&self, key: &K) -> (value: Option<&V>)
        requires
            self.wf(),
        ensures
            match value {
                Some(value) => self.contains_key(key@) && *value == self.value_of(key@),
                None => !self.contains_key(key@),
            },
    {
        match self.position(key) {
            Some(index) => Some(&self.values[index]),
            None => None,
        }
    }

    /// Puts `value` under `key`. See [`put`].
    pub fn insert(&mut self, key: K, value: V)
        requires
            old(self).wf(),
        ensures
            final(self).wf(),
            (final(self).keys(), final(self).values()) == put(
                old(self).keys(),
                old(self).values(),
                key@,
                value,
            ),
    {
        proof {
            lemma_put(self.keys(), self.values(), key@, value);
        }
        match self.position(&key) {
            Some(index) => {
                self.values.set(index, value);
            },
            None => {
                self.keys.push(key);
                self.values.push(value);
                assert(self.keys() =~= old(self).keys().push(key@));
            },
        }
    }

    /// The entries, in order.
    pub open spec fn entries(&self) -> Seq<(K::V, V)> {
        Seq::new(self.keys().len(), |i: int| (self.keys()[i], self.values()[i]))
    }

    /// Puts each entry of `other` in turn. See [`put_all`].
    pub fn append(&mut self, other: Self)
        requires
            old(self).wf(),
            other.wf(),
        ensures
            final(self).wf(),
            (final(self).keys(), final(self).values()) == put_all(
                old(self).keys(),
                old(self).values(),
                other.entries(),
            ),
    {
        let ghost entries = other.entries();
        let ghost count = entries.len() as int;
        let OrderedMap { keys, values } = other;
        let mut keys = keys;
        let mut values = values;
        let ghost first_keys = keys@;
        let ghost first_values = values@;
        let mut late_keys: Vec<K> = Vec::new();
        let mut late_values: Vec<V> = Vec::new();
        while keys.len() > 0
            invariant
                count == first_keys.len(),
                count == first_values.len(),
                keys@.len() == values@.len(),
                keys@ == first_keys.take(keys@.len() as int),
                values@ == first_values.take(values@.len() as int),
                late_keys@.len() == count - keys@.len(),
                late_values@.len() == late_keys@.len(),
                forall|j: int|
                    0 <= j < late_keys@.len() ==> #[trigger] late_keys@[j] == first_keys[count - 1
                        - j] && late_values@[j] == first_values[count - 1 - j],
            decreases keys.len(),
        {
            let key = keys.pop().unwrap();
            let value = values.pop().unwrap();
            late_keys.push(key);
            late_values.push(value);
        }
        let ghost turned_keys = late_keys@;
        let ghost turned_values = late_values@;
        assert(put_all(self.keys(), self.values(), entries.take(0)) == (
            self.keys(),
            self.values(),
        ));
        while late_keys.len() > 0
            invariant
                self.wf(),
                count == first_keys.len(),
                count == first_values.len(),
                count == entries.len(),
                forall|i: int|
                    0 <= i < count ==> #[trigger] entries[i] == (first_keys[i]@, first_values[i]),
                late_keys@.len() == late_values@.len(),
                late_keys@.len() <= count,
                turned_keys.len() == count,
                turned_values.len() == count,
                late_keys@ == turned_keys.take(late_keys@.len() as int),
                late_values@ == turned_values.take(late_values@.len() as int),
                forall|j: int|
                    0 <= j < count ==> #[trigger] turned_keys[j] == first_keys[count - 1 - j]
                        && turned_values[j] == first_values[count - 1 - j],
                (self.keys(), self.values()) == put_all(
                    old(self).keys(),
                    old(self).values(),
                    entries.take(count - late_keys@.len()),
                ),
            decreases late_keys.len(),
        {
            let ghost done = count - late_keys@.len();
            let key = late_keys.pop().unwrap();
            let value = late_values.pop().unwrap();
            proof {
                assert(key == turned_keys[count - 1 - done]);
                assert(key == first_keys[done]);
                assert(value == first_values[done]);
                assert(entries.take(done + 1).drop_last() =~= entries.take(done));
                assert(entries.take(done + 1).last() == (key@, value));
            }
            self.insert(key, value);
        }
        assert(entries.take(count) =~= entries);
    }

    /// Puts `value` in the place of the value of the entry at `index`, and
    /// hands out the value that stood there.
    pub fn replace_at(&mut self, index: usize, value: V) -> (before: V)
        requires
            old(self).wf(),
            index < old(self).values().len(),
        ensures
            final(self).wf(),
            final(self).keys() == old(self).keys(),
            final(self).values() == old(self).values().update(index as int, value),
            before == old(self).values()[index as int],
    {
        let mut held = value;
        core::mem::swap(&mut self.values[index], &mut held);
        held
    }
}

} // verus!
