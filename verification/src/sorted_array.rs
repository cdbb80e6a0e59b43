//! An array of fixed capacity that keeps its items in ascending order.

use vstd::prelude::*;

verus! {

/// How many items a [`SortedArray`] can hold.
pub const CAPACITY: usize = 1000;

/// `items` ascends; an item may occur more than once.
pub open spec fn sorted(items: Seq<u64>) -> bool {
    forall|i: int, j: int| 0 <= i <= j < items.len() ==> items[i] <= items[j]
}

/// The place of the first of `items` that is above `item`; the length of
/// `items` where none is.
pub open spec fn first_above(items: Seq<u64>, item: u64) -> int
    decreases items.len(),
{
    if items.len() == 0 || items[0] > item {
        0
    } else {
        1 + first_above(items.drop_first(), item)
    }
}

/// `first_above` is the place before which no item is above `item` and at
/// which one is, and it is the only such place.
pub proof fn lemma_first_above(items: Seq<u64>, item: u64, place: int)
    ensures
        0 <= first_above(items, item) <= items.len(),
        forall|i: int| 0 <= i < first_above(items, item) ==> #[trigger] items[i] <= item,
        first_above(items, item) < items.len() ==> items[first_above(items, item)] > item,
        0 <= place <= items.len() && (forall|i: int| 0 <= i < place ==> #[trigger] items[i] <= item)
            && (place < items.len() ==> items[place] > item) ==> place == first_above(
            items,
            item,
        ),
    decreases items.len(),
{
    if items.len() == 0 || items[0] > item {
    } else {
        let rest = items.drop_first();
        lemma_first_above(rest, item, place - 1);
        let at = first_above(items, item);
        assert forall|i: int| 0 <= i < at implies #[trigger] items[i] <= item by {
            if i > 0 {
                assert(items[i] == rest[i - 1]);
            }
        }
        if at < items.len() {
            assert(items[at] == rest[at - 1]);
        }
        if 0 <= place <= items.len() && (forall|i: int|
            0 <= i < place ==> #[trigger] items[i] <= item) && (place < items.len()
            ==> items[place] > item) {
            assert(place > 0) by {
                if place == 0 {
                    assert(items[0] > item);
                }
            }
            assert forall|i: int| 0 <= i < place - 1 implies #[trigger] rest[i] <= item by {
                assert(rest[i] == items[i + 1]);
            }
            if place < items.len() {
                assert(rest[place - 1] == items[place]);
            }
        }
    }
}

/// Up to [`CAPACITY`] numbers in ascending order.
pub struct SortedArray {
    data: [u64; CAPACITY],
    size: usize,
}

impl View for SortedArray {
    type V = Seq<u64>;

    /// The items that the array holds, in their order.
    closed spec fn view(&self) -> Seq<u64> {
        self.data@.take(self.size as int)
    }
}

impl SortedArray {
    /// The array holds no more than its capacity, in ascending order.
    pub closed spec fn wf(&self) -> bool {
        self.size <= CAPACITY && sorted(self@)
    }

    /// An array that holds nothing.
    pub fn new() -> (array: SortedArray)
        ensures
            array.wf(),
            array@ == Seq::<u64>::empty(),
    {
        let array = SortedArray { data: [0; CAPACITY], size: 0 };
        assert(array@ =~= Seq::empty());
        array
    }

    /// How many items the array holds.
    pub fn len(&self) -> (n: usize)
        requires
            self.wf(),
        ensures
            n == self@.len(),
            n <= CAPACITY,
    {
        self.size
    }

    /// The item at `place`.
    pub fn get(&self, place: usize) -> (item: u64)
        requires
            self.wf(),
            place < self@.len(),
        ensures
            item == self@[place as int],
    {
        self.data[place]
    }

    /// The place of the first item that is above `item`, if there is one.
    pub fn seek(&self, item: &u64) -> (place: Option<usize>)
        requires
            self.wf(),
        ensures
            match place {
                Some(place) => place == first_above(self@, *item) && place < self@.len(),
                None => first_above(self@, *item) == self@.len(),
            },
    {
        let mut i: usize = 0;
        while i < self.size
            invariant
                self.wf(),
                i <= self.size,
                forall|k: int| 0 <= k < i ==> #[trigger] self@[k] <= *item,
            decreases self.size - i,
        {
            if self.data[i] > *item {
                proof {
                    lemma_first_above(self@, *item, i as int);
                }
                return Some(i);
            }
            i = i + 1;
        }
        proof {
            lemma_first_above(self@, *item, i as int);
        }
        None
    }

    /// Puts `item` into the array, behind the items that are not above it.
    pub fn insert(&mut self, item: u64)
        requires
            old(self).wf(),
            old(self)@.len() < CAPACITY,
        ensures
            final(self).wf(),
            final(self)@ == old(self)@.insert(first_above(old(self)@, item), item),
    {
        let ghost before = self@;
        let ghost place = first_above(before, item);
        proof {
            lemma_first_above(before, item, 0);
        }
        let position = self.seek(&item);
        match position {
            Some(pos) => {
                let mut i: usize = self.size;
                while i > pos
                    invariant
                        pos <= i <= self.size < CAPACITY,
                        self.size == before.len(),
                        pos == place,
                        forall|k: int| 0 <= k < i ==> self.data@[k] == before[k],
                        forall|k: int| i < k <= self.size ==> self.data@[k] == before[k - 1],
                    decreases i,
                {
                    self.data[i] = self.data[i - 1];
                    i = i - 1;
                }
                self.data[pos] = item;
                self.size = self.size + 1;
            },
            None => {
                self.data[self.size] = item;
                self.size = self.size + 1;
            },
        }
        proof {
            let after = before.insert(place, item);
            assert(self@ =~= after);
            assert forall|i: int, j: int| 0 <= i <= j < after.len() implies after[i]
                <= after[j] by {
                if i < place && j > place {
                    assert(before[i] <= before[j - 1]);
                } else if i < place && j < place {
                    assert(before[i] <= before[j]);
                } else if i > place {
                    assert(before[i - 1] <= before[j - 1]);
                } else if i == place && j > place {
                    assert(before[place] <= before[j - 1]);
                }
            }
        }
    }
}

/// Fills an empty array to its capacity with the numbers below the
/// capacity, the largest first, so that every item goes to the front.
pub fn fill_backwards(array: &mut SortedArray)
    requires
        old(array).wf(),
        old(array)@.len() == 0,
    ensures
        final(array).wf(),
        final(array)@ == Seq::new(CAPACITY as nat, |i: int| i as u64),
{
    let mut next: usize = CAPACITY;
    while next > 0
        invariant
            array.wf(),
            next <= CAPACITY,
            array@ == Seq::new((CAPACITY - next) as nat, |i: int| (next + i) as u64),
        decreases next,
    {
        next = next - 1;
        proof {
            lemma_first_above(array@, next as u64, 0);
        }
        array.insert(next as u64);
        assert(array@ =~= Seq::new((CAPACITY - next) as nat, |i: int| (next + i) as u64));
    }
}

} // verus!
