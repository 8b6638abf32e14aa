use crate::order::{
    key_less, key_lt, lemma_key_less_irreflexive, lemma_key_less_total,
    lemma_key_less_transitive, lemma_sorted_no_duplicates, sorted,
};
use vstd::prelude::*;

verus! {

/// Where the latest record of a live key lies.
#[derive(Debug, Clone, Copy, PartialEq, Eq, Structural)]
pub struct KeyDirValue {
    /// The segment that holds the record.
    pub file_id: usize,
    /// The length of the record in bytes.
    pub value_size: usize,
    /// The offset in the segment at which the record starts.
    pub start_index: u64,
}

/// The key directory: one entry for each live key, in ascending order of the
/// keys.
pub struct KeyDir {
    keys: Vec<String>,
    values: Vec<KeyDirValue>,
}

impl KeyDir {
    /// The keys, in the directory's order.
    pub closed spec fn keys(&self) -> Seq<Seq<char>> {
        self.keys@.map_values(|k: String| k@)
    }

    /// The entries, each at the place of its key in `keys`.
    pub closed spec fn values(&self) -> Seq<KeyDirValue> {
        self.values@
    }

    /// Every key has one entry, and the keys stand in ascending order, so
    /// none stands twice.
    pub open spec fn wf(&self) -> bool {
        &&& self.keys().len() == self.values().len()
        &&& sorted(self.keys())
        &&& self.keys().no_duplicates()
    }

    /// The directory as a map from key to entry.
    pub open spec fn view(&self) -> Map<Seq<char>, KeyDirValue> {
        entries_map(self.keys(), self.values())
    }

    /// A directory without a key.
    pub fn new() -> (dir: KeyDir)
        ensures
            dir.wf(),
            dir.keys() == Seq::<Seq<char>>::empty(),
            dir.values() == Seq::<KeyDirValue>::empty(),
            dir@ == Map::<Seq<char>, KeyDirValue>::empty(),
    {
        let dir = KeyDir { keys: Vec::new(), values: Vec::new() };
        assert(dir.keys() =~= Seq::<Seq<char>>::empty());
        assert(sorted(dir.keys()));
        assert(dir@ =~= Map::<Seq<char>, KeyDirValue>::empty());
        dir
    }

    /// The number of live keys.
    pub fn len(&self) -> (n: usize)
        requires
            self.wf(),
        ensures
            n == self.keys().len(),
    {
        self.keys.len()
    }

    /// The entry at place `i`.
    pub fn value_at(&self, i: usize) -> (value: KeyDirValue)
        requires
            self.wf(),
            i < self.keys().len(),
        ensures
            value == self.values()[i as int],
    {
        self.values[i]
    }

    /// The entries, copied.
    pub fn values_copy(&self) -> (values: Vec<KeyDirValue>)
        ensures
            values@ == self.values(),
    {
        let mut values: Vec<KeyDirValue> = Vec::new();
        let mut i: usize = 0;
        while i < self.values.len()
            invariant
                i <= self.values.len(),
                values@ == self.values().take(i as int),
            decreases self.values.len() - i,
        {
            values.push(self.values[i]);
            assert(values@ =~= self.values().take(i + 1));
            i += 1;
        }
        assert(self.values().take(self.values.len() as int) =~= self.values());
        values
    }

    /// Puts another entry at place `i`, for the key that stands there.
    pub fn set_value_at(&mut self, i: usize, value: KeyDirValue)
        requires
            old(self).wf(),
            i < old(self).keys().len(),
        ensures
            final(self).wf(),
            final(self).keys() == old(self).keys(),
            final(self).values() == old(self).values().update(i as int, value),
    {
        self.values[i] = value;
    }

    /// Puts the entries of `values` in the place of those of the directory,
    /// each for the key that stands at its place.
    pub fn set_values(&mut self, values: &Vec<KeyDirValue>)
        requires
            old(self).wf(),
            values@.len() == old(self).keys().len(),
        ensures
            final(self).wf(),
            final(self).keys() == old(self).keys(),
            final(self).values() == values@,
    {
        let n = self.values.len();
        let mut i: usize = 0;
        while i < n
            invariant
                self.wf(),
                self.keys() == old(self).keys(),
                n == values@.len(),
                n == self.values().len(),
                i <= n,
                forall|j: int| 0 <= j < i ==> self.values()[j] == values@[j],
            decreases n - i,
        {
            self.set_value_at(i, values[i]);
            i += 1;
        }
        assert(self.values() =~= values@);
    }

    /// The place of `key` in the directory, if it is live.
    pub fn find(&self, key: &String) -> (place: Option<usize>)
        requires
            self.wf(),
        ensures
            match place {
                Some(i) => i < self.keys().len() && self.keys()[i as int] == key@,
                None => !self.keys().contains(key@),
            },
    {
        let mut i: usize = 0;
        while i < self.keys.len()
            invariant
                i <= self.keys.len(),
                forall|j: int| 0 <= j < i ==> self.keys()[j] != key@,
            decreases self.keys.len() - i,
        {
            if self.keys[i] == *key {
                return Some(i);
            }
            i += 1;
        }
        None
    }

    /// Whether the records of the directory would still fit in one segment
    /// once the key at `place`, or a key that is not live yet where `place`
    /// is `None`, had the entry `value`.
    pub fn live_size_fits(&self, place: Option<usize>, value: KeyDirValue) -> (fits: bool)
        requires
            self.wf(),
            place matches Some(i) ==> i < self.keys().len(),
        ensures
            fits == (live_size(
                match place {
                    Some(i) => self.values().update(i as int, value),
                    None => self.values().push(value),
                },
            ) <= u64::MAX),
    {
        let ghost with = match place {
            Some(i) => self.values().update(i as int, value),
            None => self.values().push(value),
        };
        let n = self.values.len();
        let mut total: u64 = 0;
        let mut i: usize = 0;
        while i < n
            invariant
                self.wf(),
                n == self.values().len(),
                i <= n,
                place matches Some(p) ==> p < n,
                with == match place {
                    Some(p) => self.values().update(p as int, value),
                    None => self.values().push(value),
                },
                total == size_upto(with, i as int),
            decreases n - i,
        {
            let size = match place {
                Some(p) => if p == i {
                    value.value_size
                } else {
                    self.values[i].value_size
                },
                None => self.values[i].value_size,
            };
            assert(size == with[i as int].value_size);
            total = match total.checked_add(size as u64) {
                Some(sum) => sum,
                None => {
                    proof {
                        lemma_size_upto_monotone(with, i + 1, with.len() as int);
                    }
                    return false;
                },
            };
            i += 1;
        }
        match place {
            Some(_) => true,
            None => total.checked_add(value.value_size as u64).is_some(),
        }
    }

    /// The entry of `key`, if it is live.
    pub fn get(&self, key: &String) -> (value: Option<KeyDirValue>)
        requires
            self.wf(),
        ensures
            value == self@.get(key@),
    {
        match self.find(key) {
            Some(i) => {
                proof {
                    lemma_entries_map_at(self.keys(), self.values(), i as int);
                }
                Some(self.values[i])
            },
            None => None,
        }
    }

    /// Gives `key` the entry `value`, and returns the entry it had before.
    pub fn insert(&mut self, key: String, value: KeyDirValue) -> (before: Option<KeyDirValue>)
        requires
            old(self).wf(),
        ensures
            final(self).wf(),
            before == old(self)@.get(key@),
            final(self)@ == old(self)@.insert(key@, value),
            final(self).keys() == keys_with(old(self).keys(), key@),
            final(self).values() == values_with(old(self).keys(), old(self).values(), key@, value),
    {
        match self.find(&key) {
            Some(i) => {
                let before = self.values[i];
                proof {
                    lemma_entries_map_at(self.keys(), self.values(), i as int);
                    lemma_entries_map_update(self.keys(), self.values(), i as int, value);
                }
                self.values[i] = value;
                Some(before)
            },
            None => {
                let n = self.keys.len();
                let mut pos: usize = 0;
                while pos < n && key_lt(&self.keys[pos], &key)
                    invariant
                        self.wf(),
                        n == self.keys().len(),
                        n == self.keys@.len(),
                        pos <= n,
                        forall|j: int| 0 <= j < pos ==> key_less(self.keys()[j], key@),
                    decreases n - pos,
                {
                    pos += 1;
                }
                proof {
                    lemma_rank_unique(self.keys(), key@, pos as int);
                    lemma_entries_map_insert(self.keys(), self.values(), pos as int, key@, value);
                    lemma_keys_with_sorted(self.keys(), key@);
                }
                self.keys.insert(pos, key);
                self.values.insert(pos, value);
                assert(self.keys() =~= old(self).keys().insert(pos as int, key@));
                None
            },
        }
    }

    /// Takes `key` out of the directory, and returns the entry it had.
    pub fn remove(&mut self, key: &String) -> (before: Option<KeyDirValue>)
        requires
            old(self).wf(),
        ensures
            final(self).wf(),
            before == old(self)@.get(key@),
            final(self)@ == old(self)@.remove(key@),
            match before {
                Some(_) => {
                    &&& final(self).keys() == old(self).keys().remove(
                        old(self).keys().index_of(key@),
                    )
                    &&& final(self).values() == old(self).values().remove(
                        old(self).keys().index_of(key@),
                    )
                },
                None => *final(self) == *old(self),
            },
    {
        match self.find(key) {
            Some(i) => {
                proof {
                    lemma_entries_map_at(self.keys(), self.values(), i as int);
                    lemma_entries_map_remove(self.keys(), self.values(), i as int);
                }
                self.keys.remove(i);
                let before = self.values.remove(i);
                assert(self.keys() =~= old(self).keys().remove(i as int));
                assert(sorted(self.keys())) by {
                    let was = old(self).keys();
                    assert forall|a: int, b: int| 0 <= a < b < was.remove(i as int).len() implies key_less(
                        was.remove(i as int)[a],
                        was.remove(i as int)[b],
                    ) by {
                        let a0 = if a < i {
                            a
                        } else {
                            a + 1
                        };
                        let b0 = if b < i {
                            b
                        } else {
                            b + 1
                        };
                        assert(key_less(was[a0], was[b0]));
                    }
                }
                Some(before)
            },
            None => {
                assert(self@ =~= self@.remove(key@));
                None
            },
        }
    }
}

/// The bytes that the first `n` records of `values` take together.
pub open spec fn size_upto(values: Seq<KeyDirValue>, n: int) -> int
    decreases n,
{
    if n <= 0 {
        0
    } else {
        size_upto(values, n - 1) + values[n - 1].value_size
    }
}

/// The bytes that all records of `values` take together.
pub open spec fn live_size(values: Seq<KeyDirValue>) -> int {
    size_upto(values, values.len() as int)
}

/// Records take no fewer bytes than the first few of them.
pub proof fn lemma_size_upto_monotone(values: Seq<KeyDirValue>, a: int, b: int)
    requires
        0 <= a <= b,
    ensures
        0 <= size_upto(values, a) <= size_upto(values, b),
    decreases b,
{
    if a < b {
        lemma_size_upto_monotone(values, a, b - 1);
    } else if a > 0 {
        lemma_size_upto_monotone(values, a - 1, a - 1);
    }
}

/// The number of keys of the list that stand before `key`: in a sorted list,
/// the place at which `key` belongs.
pub open spec fn rank(keys: Seq<Seq<char>>, key: Seq<char>) -> int
    decreases keys.len(),
{
    if keys.len() == 0 {
        0
    } else {
        rank(keys.drop_last(), key) + if key_less(keys.last(), key) {
            1int
        } else {
            0int
        }
    }
}

/// The keys of a directory once `key` has been given an entry: a key that
/// was not live comes in where it belongs in the order of the keys.
pub open spec fn keys_with(keys: Seq<Seq<char>>, key: Seq<char>) -> Seq<Seq<char>> {
    if keys.contains(key) {
        keys
    } else {
        keys.insert(rank(keys, key), key)
    }
}

/// The entries of a directory once `key` has been given the entry `value`:
/// in the place of the entry it had, or at the place where the key comes in.
pub open spec fn values_with(
    keys: Seq<Seq<char>>,
    values: Seq<KeyDirValue>,
    key: Seq<char>,
    value: KeyDirValue,
) -> Seq<KeyDirValue> {
    if keys.contains(key) {
        values.update(keys.index_of(key), value)
    } else {
        values.insert(rank(keys, key), value)
    }
}

/// The rank of a key lies within the list.
pub proof fn lemma_rank_bounds(keys: Seq<Seq<char>>, key: Seq<char>)
    ensures
        0 <= rank(keys, key) <= keys.len(),
    decreases keys.len(),
{
    if keys.len() > 0 {
        lemma_rank_bounds(keys.drop_last(), key);
    }
}

/// In a sorted list, the keys before the rank of `key` stand before `key`,
/// and no other does.
pub proof fn lemma_rank(keys: Seq<Seq<char>>, key: Seq<char>)
    requires
        sorted(keys),
    ensures
        0 <= rank(keys, key) <= keys.len(),
        forall|j: int| 0 <= j < rank(keys, key) ==> key_less(#[trigger] keys[j], key),
        forall|j: int| rank(keys, key) <= j < keys.len() ==> !key_less(#[trigger] keys[j], key),
    decreases keys.len(),
{
    if keys.len() > 0 {
        let front = keys.drop_last();
        let last = keys.len() - 1;
        assert forall|i: int, j: int| 0 <= i < j < front.len() implies key_less(
            front[i],
            front[j],
        ) by {
            assert(key_less(keys[i], keys[j]));
        }
        lemma_rank(front, key);
        let r = rank(front, key);
        if key_less(keys.last(), key) {
            if r < last {
                assert(!key_less(front[r], key));
                assert(key_less(keys[r], keys[last]));
                lemma_key_less_transitive(keys[r], keys[last], key);
            }
            assert forall|j: int| 0 <= j < rank(keys, key) implies key_less(
                #[trigger] keys[j],
                key,
            ) by {
                if j < last {
                    assert(key_less(front[j], key));
                }
            }
        } else {
            assert forall|j: int| 0 <= j < rank(keys, key) implies key_less(
                #[trigger] keys[j],
                key,
            ) by {
                assert(key_less(front[j], key));
            }
            assert forall|j: int| rank(keys, key) <= j < keys.len() implies !key_less(
                #[trigger] keys[j],
                key,
            ) by {
                if j < last {
                    assert(!key_less(front[j], key));
                }
            }
        }
    }
}

/// In a sorted list, the place behind the keys that stand before `key`, and
/// before any other, is the rank of `key`.
pub proof fn lemma_rank_unique(keys: Seq<Seq<char>>, key: Seq<char>, p: int)
    requires
        sorted(keys),
        0 <= p <= keys.len(),
        forall|j: int| 0 <= j < p ==> key_less(keys[j], key),
        p == keys.len() || !key_less(keys[p], key),
    ensures
        rank(keys, key) == p,
{
    lemma_rank(keys, key);
    let r = rank(keys, key);
    if p < r {
        assert(key_less(keys[p], key));
    } else if p > r {
        assert(!key_less(keys[r], key));
    }
}

/// A sorted list stays sorted when a key is given an entry.
pub proof fn lemma_keys_with_sorted(keys: Seq<Seq<char>>, key: Seq<char>)
    requires
        sorted(keys),
    ensures
        sorted(keys_with(keys, key)),
{
    if !keys.contains(key) {
        lemma_rank(keys, key);
        let p = rank(keys, key);
        let more = keys.insert(p, key);
        assert forall|i: int, j: int| 0 <= i < j < more.len() implies key_less(
            more[i],
            more[j],
        ) by {
            if j == p {
                assert(key_less(keys[i], key));
            } else if i == p {
                assert(keys.contains(keys[j - 1]));
                assert(!key_less(keys[j - 1], key));
                lemma_key_less_total(key, keys[j - 1]);
            } else {
                let i0 = if i < p {
                    i
                } else {
                    i - 1
                };
                let j0 = if j < p {
                    j
                } else {
                    j - 1
                };
                assert(key_less(keys[i0], keys[j0]));
            }
        }
    }
}

/// A record that comes in anywhere adds its bytes to those of the others.
pub proof fn lemma_size_upto_insert(values: Seq<KeyDirValue>, p: int, value: KeyDirValue, n: int)
    requires
        0 <= p <= values.len(),
        0 <= n <= values.len() + 1,
    ensures
        size_upto(values.insert(p, value), n) == if n <= p {
            size_upto(values, n)
        } else {
            size_upto(values, n - 1) + value.value_size
        },
    decreases n,
{
    if n > 0 {
        lemma_size_upto_insert(values, p, value, n - 1);
    }
}

/// The records take the same number of bytes wherever one more comes in.
pub proof fn lemma_live_size_insert(values: Seq<KeyDirValue>, p: int, value: KeyDirValue)
    requires
        0 <= p <= values.len(),
    ensures
        live_size(values.insert(p, value)) == live_size(values.push(value)),
{
    lemma_size_upto_insert(values, p, value, (values.len() + 1) as int);
    lemma_size_upto_insert(values, values.len() as int, value, (values.len() + 1) as int);
    assert(values.insert(values.len() as int, value) =~= values.push(value));
}

/// The map that takes each key of `keys` to the entry at its place.
pub open spec fn entries_map(keys: Seq<Seq<char>>, values: Seq<KeyDirValue>) -> Map<
    Seq<char>,
    KeyDirValue,
> {
    Map::new(|k: Seq<char>| keys.contains(k), |k: Seq<char>| values[keys.index_of(k)])
}

/// In a directory without duplicates, the key at place `i` has the entry at
/// place `i`.
pub proof fn lemma_entries_map_at(keys: Seq<Seq<char>>, values: Seq<KeyDirValue>, i: int)
    requires
        keys.no_duplicates(),
        0 <= i < keys.len(),
    ensures
        keys.contains(keys[i]),
        keys.index_of(keys[i]) == i,
        entries_map(keys, values).contains_key(keys[i]),
        entries_map(keys, values)[keys[i]] == values[i],
{
    assert(keys.contains(keys[i]));
    let j = keys.index_of(keys[i]);
    assert(keys[j] == keys[i]);
}

/// Putting another entry at the place of a key gives the key that entry in
/// the map.
pub proof fn lemma_entries_map_update(
    keys: Seq<Seq<char>>,
    values: Seq<KeyDirValue>,
    i: int,
    value: KeyDirValue,
)
    requires
        keys.no_duplicates(),
        keys.len() == values.len(),
        0 <= i < keys.len(),
    ensures
        entries_map(keys, values.update(i, value)) == entries_map(keys, values).insert(
            keys[i],
            value,
        ),
{
    lemma_entries_map_at(keys, values, i);
    assert forall|k: Seq<char>| keys.contains(k) implies #[trigger] entries_map(
        keys,
        values.update(i, value),
    )[k] == entries_map(keys, values).insert(keys[i], value)[k] by {
        let j = keys.index_of(k);
        assert(keys[j] == k);
    }
    assert(entries_map(keys, values.update(i, value)) =~= entries_map(keys, values).insert(
        keys[i],
        value,
    ));
}

/// A key that is not live, put in at any place, comes into the map with
/// its entry.
pub proof fn lemma_entries_map_insert(
    keys: Seq<Seq<char>>,
    values: Seq<KeyDirValue>,
    p: int,
    key: Seq<char>,
    value: KeyDirValue,
)
    requires
        keys.no_duplicates(),
        keys.len() == values.len(),
        0 <= p <= keys.len(),
        !keys.contains(key),
    ensures
        keys.insert(p, key).no_duplicates(),
        entries_map(keys.insert(p, key), values.insert(p, value)) == entries_map(
            keys,
            values,
        ).insert(key, value),
{
    let keys2 = keys.insert(p, key);
    let values2 = values.insert(p, value);
    assert forall|j: int| 0 <= j < keys2.len() && j != p implies keys2[j] == keys[if j < p {
        j
    } else {
        j - 1
    }] && values2[j] == values[if j < p {
        j
    } else {
        j - 1
    }] by {}
    assert forall|a: int, b: int| 0 <= a < keys2.len() && 0 <= b < keys2.len() && a != b implies keys2[a]
        != keys2[b] by {
        if a != p {
            let a0 = if a < p {
                a
            } else {
                a - 1
            };
            assert(keys.contains(keys[a0]));
        }
        if b != p {
            let b0 = if b < p {
                b
            } else {
                b - 1
            };
            assert(keys.contains(keys[b0]));
        }
    }
    assert forall|k: Seq<char>| keys2.contains(k) <==> (keys.contains(k) || k == key) by {
        if keys.contains(k) {
            let j = keys.index_of(k);
            assert(keys[j] == k);
            let j2 = if j < p {
                j
            } else {
                j + 1
            };
            assert(keys2[j2] == k);
        }
        if k == key {
            assert(keys2[p] == k);
        }
        if keys2.contains(k) {
            let j = keys2.index_of(k);
            assert(keys2[j] == k);
            if j != p {
                let j0 = if j < p {
                    j
                } else {
                    j - 1
                };
                assert(keys[j0] == k);
            }
        }
    }
    assert forall|k: Seq<char>| keys2.contains(k) implies #[trigger] entries_map(keys2, values2)[k]
        == entries_map(keys, values).insert(key, value)[k] by {
        let j = keys2.index_of(k);
        assert(keys2[j] == k);
        if k == key {
            assert(keys2[p] == k);
            assert(j == p);
        } else {
            assert(j != p);
            let j0 = if j < p {
                j
            } else {
                j - 1
            };
            lemma_entries_map_at(keys, values, j0);
        }
    }
    assert(entries_map(keys2, values2) =~= entries_map(keys, values).insert(key, value));
}

/// Taking the key at a place out of the directory takes it out of the map.
pub proof fn lemma_entries_map_remove(keys: Seq<Seq<char>>, values: Seq<KeyDirValue>, i: int)
    requires
        keys.no_duplicates(),
        keys.len() == values.len(),
        0 <= i < keys.len(),
    ensures
        keys.remove(i).no_duplicates(),
        entries_map(keys.remove(i), values.remove(i)) == entries_map(keys, values).remove(keys[i]),
{
    let keys2 = keys.remove(i);
    let values2 = values.remove(i);
    assert forall|j: int| 0 <= j < keys2.len() implies keys2[j] == keys[if j < i {
        j
    } else {
        j + 1
    }] && values2[j] == values[if j < i {
        j
    } else {
        j + 1
    }] by {}
    assert forall|k: Seq<char>| keys2.contains(k) <==> (keys.contains(k) && k != keys[i]) by {
        if keys2.contains(k) {
            let j = keys2.index_of(k);
            assert(keys2[j] == k);
            let o = if j < i {
                j
            } else {
                j + 1
            };
            assert(keys[o] == k);
        }
        if keys.contains(k) && k != keys[i] {
            let o = keys.index_of(k);
            assert(keys[o] == k);
            let j = if o < i {
                o
            } else {
                o - 1
            };
            assert(keys2[j] == k);
        }
    }
    assert forall|k: Seq<char>| keys2.contains(k) implies #[trigger] entries_map(keys2, values2)[k]
        == entries_map(keys, values).remove(keys[i])[k] by {
        let j = keys2.index_of(k);
        assert(keys2[j] == k);
        let o = if j < i {
            j
        } else {
            j + 1
        };
        lemma_entries_map_at(keys, values, o);
    }
    assert(entries_map(keys2, values2) =~= entries_map(keys, values).remove(keys[i]));
}

/// The entries of a directory once `key` has the entry `at` are those of
/// the map with `key` inserted.
pub proof fn lemma_entries_with(
    keys: Seq<Seq<char>>,
    values: Seq<KeyDirValue>,
    key: Seq<char>,
    at: KeyDirValue,
)
    requires
        keys.no_duplicates(),
        keys.len() == values.len(),
    ensures
        keys_with(keys, key).no_duplicates(),
        keys_with(keys, key).len() == values_with(keys, values, key, at).len(),
        entries_map(keys_with(keys, key), values_with(keys, values, key, at)) == entries_map(
            keys,
            values,
        ).insert(key, at),
{
    if keys.contains(key) {
        let i = keys.index_of(key);
        assert(keys[i] == key);
        lemma_entries_map_update(keys, values, i, at);
    } else {
        lemma_rank_bounds(keys, key);
        lemma_entries_map_insert(keys, values, rank(keys, key), key, at);
    }
}

/// A map from keys to entries is held by one sorted list of keys only, with
/// one list of entries.
pub proof fn lemma_sorted_unique(
    keys1: Seq<Seq<char>>,
    values1: Seq<KeyDirValue>,
    keys2: Seq<Seq<char>>,
    values2: Seq<KeyDirValue>,
)
    requires
        sorted(keys1),
        sorted(keys2),
        keys1.len() == values1.len(),
        keys2.len() == values2.len(),
        entries_map(keys1, values1) == entries_map(keys2, values2),
    ensures
        keys1 == keys2,
        values1 == values2,
    decreases keys1.len(),
{
    let m1 = entries_map(keys1, values1);
    let m2 = entries_map(keys2, values2);
    assert forall|k: Seq<char>| keys1.contains(k) <==> keys2.contains(k) by {
        assert(m1.contains_key(k) == keys1.contains(k));
        assert(m2.contains_key(k) == keys2.contains(k));
    }
    lemma_sorted_no_duplicates(keys1);
    lemma_sorted_no_duplicates(keys2);
    if keys1.len() == 0 {
        if keys2.len() > 0 {
            assert(keys2.contains(keys2[0]));
        }
        assert(keys1 =~= keys2);
        assert(values1 =~= values2);
    } else {
        assert(keys1.contains(keys1[0]));
        assert(keys2.len() > 0) by {
            if keys2.len() == 0 {
                let j = keys2.index_of(keys1[0]);
            }
        }
        let n1 = keys1.len() - 1;
        let n2 = keys2.len() - 1;
        let a = keys1[n1];
        let b = keys2[n2];
        assert(keys1.contains(a));
        assert(keys2.contains(b));
        let j = keys2.index_of(a);
        let i = keys1.index_of(b);
        assert(keys2[j] == a);
        assert(keys1[i] == b);
        if a != b {
            assert(key_less(keys2[j], keys2[n2]));
            assert(key_less(keys1[i], keys1[n1]));
            lemma_key_less_transitive(a, b, a);
            lemma_key_less_irreflexive(a);
        }
        lemma_entries_map_at(keys1, values1, n1);
        lemma_entries_map_at(keys2, values2, n2);
        lemma_entries_map_remove(keys1, values1, n1);
        lemma_entries_map_remove(keys2, values2, n2);
        assert(keys1.remove(n1) =~= keys1.drop_last());
        assert(keys2.remove(n2) =~= keys2.drop_last());
        assert(values1.remove(n1) =~= values1.drop_last());
        assert(values2.remove(n2) =~= values2.drop_last());
        assert(sorted(keys1.drop_last())) by {
            let f = keys1.drop_last();
            assert forall|x: int, y: int| 0 <= x < y < f.len() implies key_less(f[x], f[y]) by {
                assert(key_less(keys1[x], keys1[y]));
            }
        }
        assert(sorted(keys2.drop_last())) by {
            let f = keys2.drop_last();
            assert forall|x: int, y: int| 0 <= x < y < f.len() implies key_less(f[x], f[y]) by {
                assert(key_less(keys2[x], keys2[y]));
            }
        }
        lemma_sorted_unique(
            keys1.drop_last(),
            values1.drop_last(),
            keys2.drop_last(),
            values2.drop_last(),
        );
        assert(keys1 =~= keys1.drop_last().push(a));
        assert(keys2 =~= keys2.drop_last().push(b));
        assert(values1 =~= values1.drop_last().push(values1[n1]));
        assert(values2 =~= values2.drop_last().push(values2[n2]));
    }
}

} // verus!
