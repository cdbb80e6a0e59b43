//! A table of keys in memory, kept in the order of their bytes, that takes no
//! more keys than fit into a given count of bytes.

use crate::scan::{
    ascending, lemma_lex_le_antisymmetric, lemma_lex_le_reflexive, lemma_lex_le_total,
    lemma_lex_le_transitive, lex_le,
};
use vstd::prelude::*;

verus! {

/// Bytes in a [`Key`].
pub const KEY_SIZE: usize = 32;

/// A key of fixed size. Keys are ordered by their bytes, the first byte
/// counting most.
#[derive(Clone, Copy, Debug, PartialEq, Eq, PartialOrd, Ord)]
pub struct Key {
    pub key: [u8; KEY_SIZE],
}

impl View for Key {
    type V = Seq<u8>;

    open spec fn view(&self) -> Seq<u8> {
        self.key@
    }
}

impl Key {
    /// Whether this key comes at or before `other`.
    pub fn at_or_before(&self, other: &Key) -> (b: bool)
        ensures
            b == lex_le(self@, other@),
    {
        let mut i: usize = 0;
        proof {
            assert(self@.skip(0) =~= self@);
            assert(other@.skip(0) =~= other@);
        }
        while i < KEY_SIZE
            invariant
                i <= KEY_SIZE,
                lex_le(self@, other@) == lex_le(self@.skip(i as int), other@.skip(i as int)),
            decreases KEY_SIZE - i,
        {
            proof {
                let mine = self@.skip(i as int);
                let theirs = other@.skip(i as int);
                assert(mine[0] == self@[i as int]);
                assert(theirs[0] == other@[i as int]);
                assert(mine.drop_first() =~= self@.skip(i + 1));
                assert(theirs.drop_first() =~= other@.skip(i + 1));
            }
            if self.key[i] != other.key[i] {
                return self.key[i] < other.key[i];
            }
            i = i + 1;
        }
        true
    }
}

/// The bytes of each of `keys`.
pub open spec fn key_views(keys: Seq<Key>) -> Seq<Seq<u8>> {
    Seq::new(keys.len(), |i: int| keys[i]@)
}

/// Keys in ascending order, no key twice, up to a count that is fixed when
/// the table is made.
pub struct Memtable {
    data: Vec<Key>,
    max_keys: usize,
}

impl View for Memtable {
    type V = Seq<Seq<u8>>;

    /// The keys of the table, in their order.
    closed spec fn view(&self) -> Seq<Seq<u8>> {
        key_views(self.data@)
    }
}

impl Memtable {
    /// How many keys the table may hold.
    pub closed spec fn capacity(&self) -> nat {
        self.max_keys as nat
    }

    /// The keys ascend, no key occurs twice, and there are no more of them
    /// than the table may hold.
    pub closed spec fn wf(&self) -> bool {
        ascending(self@) && self@.len() <= self.max_keys
    }

    /// A table for as many keys as fit into `max_size_bytes` bytes.
    pub fn new(max_size_bytes: usize) -> (table: Memtable)
        ensures
            table.wf(),
            table@.len() == 0,
            table.capacity() == max_size_bytes / KEY_SIZE,
    {
        Memtable { data: Vec::new(), max_keys: max_size_bytes / KEY_SIZE }
    }

    /// How many keys the table may hold.
    pub fn max_keys(&self) -> (n: usize)
        ensures
            n == self.capacity(),
    {
        self.max_keys
    }

    /// The place of the first key that does not come before `key`.
    fn seek(&self, key: &Key) -> (place: usize)
        requires
            self.wf(),
        ensures
            place <= self@.len(),
            forall|i: int| 0 <= i < place ==> !lex_le(key@, #[trigger] self@[i]),
            forall|i: int| place <= i < self@.len() ==> lex_le(key@, #[trigger] self@[i]),
    {
        let mut low: usize = 0;
        let mut high: usize = self.data.len();
        while low < high
            invariant
                self.wf(),
                low <= high <= self@.len(),
                forall|i: int| 0 <= i < low ==> !lex_le(key@, #[trigger] self@[i]),
                forall|i: int| high <= i < self@.len() ==> lex_le(key@, #[trigger] self@[i]),
            decreases high - low,
        {
            let middle = low + (high - low) / 2;
            if key.at_or_before(&self.data[middle]) {
                proof {
                    assert forall|i: int| middle <= i < self@.len() implies lex_le(
                        key@,
                        #[trigger] self@[i],
                    ) by {
                        if i > middle {
                            lemma_lex_le_transitive(key@, self@[middle as int], self@[i]);
                        }
                    }
                }
                high = middle;
            } else {
                proof {
                    assert forall|i: int| 0 <= i < middle + 1 implies !lex_le(
                        key@,
                        #[trigger] self@[i],
                    ) by {
                        if i < middle && lex_le(key@, self@[i]) {
                            lemma_lex_le_transitive(key@, self@[i], self@[middle as int]);
                        }
                    }
                }
                low = middle + 1;
            }
        }
        low
    }

    /// Takes `key` into the table. A key that the table holds already is not
    /// taken a second time.
    pub fn put(&mut self, key: Key)
        requires
            old(self).wf(),
            old(self)@.len() < old(self).capacity(),
        ensures
            final(self).wf(),
            final(self).capacity() == old(self).capacity(),
            forall|k: Seq<u8>|
                #![trigger final(self)@.contains(k)]
                final(self)@.contains(k) <==> old(self)@.contains(k) || k == key@,
            final(self)@.len() == old(self)@.len() + if old(self)@.contains(key@) {
                0int
            } else {
                1int
            },
    {
        let ghost before = self@;
        let place = self.seek(&key);
        if place < self.data.len() && self.data[place].at_or_before(&key) {
            proof {
                lemma_lex_le_antisymmetric(key@, before[place as int]);
                assert forall|k: Seq<u8>| before.contains(k) <==> before.contains(k) || k
                    == key@ by {
                    assert(before[place as int] == key@);
                }
            }
            return ;
        }
        self.data.insert(place, key);
        proof {
            let after = self@;
            assert(after =~= before.insert(place as int, key@));
            assert forall|i: int| 0 <= i < before.len() implies #[trigger] before[i] != key@ by {
                if before[i] == key@ {
                    lemma_lex_le_reflexive(key@);
                    if i > place {
                        assert(lex_le(before[place as int], before[i]));
                    }
                }
            }
            assert forall|i: int, j: int| 0 <= i < j < after.len() implies lex_le(
                #[trigger] after[i],
                #[trigger] after[j],
            ) && after[i] != after[j] by {
                if j == place {
                    lemma_lex_le_total(key@, before[i]);
                } else if i == place {
                    assert(after[j] == before[j - 1]);
                } else if i < place && j > place {
                    assert(after[j] == before[j - 1]);
                    assert(lex_le(before[i], before[j - 1]));
                } else if j < place {
                    assert(lex_le(before[i], before[j]));
                } else {
                    assert(after[i] == before[i - 1] && after[j] == before[j - 1]);
                    assert(lex_le(before[i - 1], before[j - 1]));
                }
            }
            assert forall|k: Seq<u8>| after.contains(k) <==> before.contains(k) || k == key@ by {
                if after.contains(k) {
                    let i = choose|i: int| 0 <= i < after.len() && after[i] == k;
                    if i < place {
                        assert(before[i] == k);
                    } else if i > place {
                        assert(before[i - 1] == k);
                    }
                }
                if before.contains(k) {
                    let i = choose|i: int| 0 <= i < before.len() && before[i] == k;
                    if i < place {
                        assert(after[i] == k);
                    } else {
                        assert(after[i + 1] == k);
                    }
                }
                if k == key@ {
                    assert(after[place as int] == k);
                }
            }
            assert(!before.contains(key@));
        }
    }

    /// How many keys the table holds.
    pub fn len(&self) -> (n: usize)
        ensures
            n == self@.len(),
    {
        self.data.len()
    }

    /// The keys of the table, in ascending order.
    pub fn into_keys(self) -> (keys: Vec<Key>)
        ensures
            key_views(keys@) == self@,
    {
        self.data
    }
}

} // verus!
