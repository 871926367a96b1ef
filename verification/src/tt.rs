//! A transposition table: a hash table of fixed size, indexed by the low bits of the key, in
//! which a new entry replaces whatever shared its slot.
use vstd::prelude::*;

use vstd::layout::size_of;

verus! {

/// An entry in the table: the key it was stored under, and its value.
pub type Entry<T> = (u64, T);

/// The smallest power of two that is at least `x`, counting up from the power of two `p`.
pub open spec fn pow2_at_least(x: int, p: int) -> int
    decreases (if p < x {
        x - p
    } else {
        0
    }),
{
    if p <= 0 || p >= x {
        p
    } else {
        pow2_at_least(x, 2 * p)
    }
}

/// The smallest power of two that is at least `x` (1 for `x` of 0 or 1).
pub open spec fn next_pow2(x: int) -> int {
    pow2_at_least(x, 1)
}

/// The number of entries of a table of `size` bytes whose entries take `entry` bytes each: the
/// power of two next to the number that fit, halved if that does not fit.
pub open spec fn table_len(size: int, entry: int) -> int {
    let count = next_pow2(size / entry);
    if count * entry > size {
        count / 2
    } else {
        count
    }
}

/// `n` is a power of two: 1, or twice a power of two.
pub open spec fn power_of_two(n: int) -> bool
    decreases n,
{
    if n <= 0 {
        false
    } else if n == 1 {
        true
    } else {
        n % 2 == 0 && power_of_two(n / 2)
    }
}

/// Doubling a power of two until it reaches `x` gives a power of two, and from below `x` it
/// stops short of twice `x`.
proof fn lemma_pow2_at_least_shape(x: int, p: int)
    requires
        power_of_two(p),
    ensures
        power_of_two(pow2_at_least(x, p)),
        pow2_at_least(x, p) >= x,
        p < x ==> pow2_at_least(x, p) < 2 * x,
    decreases (if p < x {
        x - p
    } else {
        0
    }),
{
    if p < x {
        assert((2 * p) % 2 == 0 && (2 * p) / 2 == p);
        assert(power_of_two(2 * p));
        lemma_pow2_at_least_shape(x, 2 * p);
    }
}

/// A table of `size` bytes whose entries take `entry` bytes holds the largest power of two of
/// entries that fits in `size`, or none when not even one entry fits.
pub proof fn lemma_table_len_largest(size: int, entry: int)
    requires
        0 <= size,
        0 < entry,
    ensures
        size < entry ==> table_len(size, entry) == 0,
        size >= entry ==> {
            &&& power_of_two(table_len(size, entry))
            &&& table_len(size, entry) * entry <= size
            &&& size < 2 * table_len(size, entry) * entry
        },
{
    let fit = size / entry;
    assert(fit * entry <= size < (fit + 1) * entry) by (nonlinear_arith)
        requires
            fit == size / entry,
            entry > 0,
            size >= 0,
    ;
    assert(power_of_two(1int));
    lemma_pow2_at_least_shape(fit, 1);
    let count = next_pow2(fit);
    if size < entry {
        assert(fit == 0) by (nonlinear_arith)
            requires
                fit == size / entry,
                0 <= size < entry,
        ;
        assert(count == 1);
    } else {
        assert(fit >= 1) by (nonlinear_arith)
            requires
                fit == size / entry,
                size >= entry > 0,
        ;
        if count * entry > size {
            assert(count >= 2) by (nonlinear_arith)
                requires
                    count * entry > size,
                    size >= entry,
                    count >= 1,
                    entry > 0,
            ;
            assert(count < 2 * fit);
            let n = count / 2;
            assert(count % 2 == 0 && power_of_two(n));
            assert(n <= fit - 1);
            assert(n * entry <= size) by (nonlinear_arith)
                requires
                    n <= fit - 1,
                    fit * entry <= size,
                    entry > 0,
                    n >= 1,
            ;
            assert(2 * n * entry == count * entry) by (nonlinear_arith)
                requires
                    2 * n == count,
            ;
        } else {
            assert(size < 2 * count * entry) by (nonlinear_arith)
                requires
                    count >= fit,
                    count >= 1,
                    size < (fit + 1) * entry,
                    entry > 0,
            ;
        }
    }
}

/// The slot of `key` in a table of `len` entries: its low bits.
pub open spec fn slot_of(key: u64, len: int) -> int {
    (key & ((len - 1) as u64)) as int
}

/// The smallest power of two greater than or equal to `x`, as `usize::next_power_of_two`
/// computes it: doubling from 1 until `x` is reached.
fn next_power_of_two(x: usize) -> (r: usize)
    requires
        x <= usize::MAX / 2,
    ensures
        r == next_pow2(x as int),
{
    let mut p: usize = 1;
    while p < x
        invariant
            1 <= p,
            p <= 2 * x || p == 1,
            x <= usize::MAX / 2,
            pow2_at_least(x as int, p as int) == next_pow2(x as int),
        decreases (if p < x {
            x - p
        } else {
            0
        }),
    {
        p = p * 2;
    }
    p
}

/// The powers of two counted up from 1 to cover `x` are at most twice `x`, and at least 1.
proof fn lemma_pow2_bound(x: int, p: int)
    requires
        p >= 1,
        p <= 2 * x || p == 1,
    ensures
        1 <= pow2_at_least(x, p),
        pow2_at_least(x, p) >= x,
        pow2_at_least(x, p) <= 2 * x || pow2_at_least(x, p) == p,
    decreases (if p < x {
        x - p
    } else {
        0
    }),
{
    if p < x {
        lemma_pow2_bound(x, 2 * p);
    }
}

/// A slot index is below the table's length.
proof fn lemma_slot_range(key: u64, len: u64)
    requires
        len > 0,
    ensures
        0 <= slot_of(key, len as int) < len,
{
    let m = (len - 1) as u64;
    assert(key & m <= m) by (bit_vector);
}

/// A transposition table holding values of type `T`: the keys and the values of its entries,
/// side by side.
pub struct TranspositionTable<T> {
    keys: Vec<u64>,
    values: Vec<T>,
}

impl<T> TranspositionTable<T> {
    /// Well-formedness: as many keys as values.
    #[verifier::type_invariant]
    pub closed spec fn wf(self) -> bool {
        &&& self.keys@.len() == self.values@.len()
        &&& self.keys@.len() <= usize::MAX
    }

    /// The entries of the table.
    pub closed spec fn entries(self) -> Seq<Entry<T>> {
        Seq::new(self.keys@.len(), |i: int| (self.keys@[i], self.values@[i]))
    }

    /// The entry that `get` consults for `key`, when the table has any.
    pub open spec fn lookup(self, key: u64) -> Option<T> {
        let n = self.entries().len();
        if n > 0 && self.entries()[slot_of(key, n as int)].0 == key {
            Some(self.entries()[slot_of(key, n as int)].1)
        } else {
            None
        }
    }

    /// The value stored under `key`, if its slot still holds it.
    pub fn get(&self, key: u64) -> (r: Option<&T>)
        ensures
            match r {
                Some(v) => self.lookup(key) == Some(*v),
                None => self.lookup(key) is None,
            },
    {
        proof {
            use_type_invariant(self);
        }
        let n = self.keys.len();
        if n > 0 {
            proof {
                lemma_slot_range(key, n as u64);
            }
            let idx = (key & ((n - 1) as u64)) as usize;
            if key == self.keys[idx] {
                return Some(&self.values[idx]);
            }
        }
        None
    }

    /// `after` is this table with `entry` stored under `key`: the slot of `key` now holds
    /// both, and a table without slots stays as it was.
    pub open spec fn stores(self, after: Self, key: u64, entry: T) -> bool {
        &&& after.entries().len() == self.entries().len()
        &&& self.entries().len() > 0 ==> after.entries() == self.entries().update(
            slot_of(key, self.entries().len() as int),
            (key, entry),
        )
        &&& self.entries().len() == 0 ==> after.entries() == self.entries()
    }

    /// Store `entry` under `key`, replacing what its slot held.
    pub fn set(&mut self, key: u64, entry: T)
        ensures
            old(self).stores(*final(self), key, entry),
    {
        proof {
            use_type_invariant(&*self);
        }
        let n = self.keys.len();
        if n > 0 {
            proof {
                lemma_slot_range(key, n as u64);
            }
            let idx = (key & ((n - 1) as u64)) as usize;
            let mut table = TranspositionTable { keys: Vec::new(), values: Vec::new() };
            std::mem::swap(&mut table, self);
            let TranspositionTable { mut keys, mut values } = table;
            keys.set(idx, key);
            values.set(idx, entry);
            *self = TranspositionTable { keys, values };
            proof {
                assert(self.entries() =~= old(self).entries().update(idx as int, (key, entry)));
            }
        }
    }

    /// Forget every entry, by setting every key to 0.
    pub fn clear(&mut self)
        ensures
            final(self).entries().len() == old(self).entries().len(),
            forall|i: int|
                0 <= i < final(self).entries().len() ==> #[trigger] final(self).entries()[i].0 == 0
                    && final(self).entries()[i].1 == old(self).entries()[i].1,
    {
        proof {
            use_type_invariant(&*self);
        }
        let mut table = TranspositionTable { keys: Vec::new(), values: Vec::new() };
        std::mem::swap(&mut table, self);
        let TranspositionTable { mut keys, values } = table;
        let n = keys.len();
        let mut i: usize = 0;
        while i < n
            invariant
                n == old(self).keys@.len(),
                keys@.len() == n,
                values@ == old(self).values@,
                0 <= i <= n,
                forall|j: int|
                    0 <= j < n ==> (j < i ==> #[trigger] keys@[j] == 0) && (j >= i ==> keys@[j]
                        == old(self).keys@[j]),
            decreases n - i,
        {
            keys.set(i, 0);
            i += 1;
        }
        *self = TranspositionTable { keys, values };
    }

    /// Storing under `a` and then under another key `b`: `b` is found whenever the table has
    /// slots, and `a` is lost exactly when the table has none or the two keys share a slot.
    pub proof fn lemma_two_stores(self, mid: Self, after: Self, a: u64, x: T, b: u64, y: T)
        requires
            self.wf(),
            a != b,
            self.stores(mid, a, x),
            mid.stores(after, b, y),
        ensures
            after.lookup(b) is Some <==> self.entries().len() > 0,
            self.entries().len() > 0 ==> after.lookup(b) == Some(y),
            after.lookup(a) is None <==> (self.entries().len() == 0 || slot_of(a, self.entries().len() as int)
                == slot_of(b, self.entries().len() as int)),
    {
        let n = self.entries().len();
        if n > 0 {
            lemma_slot_range(a, n as u64);
            lemma_slot_range(b, n as u64);
        }
    }

    /// A value stored under a key is found under it until its slot is written again.
    pub proof fn lemma_get_after_set(self, after: Self, key: u64, entry: T)
        requires
            self.wf(),
            self.entries().len() > 0,
            after.entries() == self.entries().update(
                slot_of(key, self.entries().len() as int),
                (key, entry),
            ),
        ensures
            after.lookup(key) == Some(entry),
    {
        lemma_slot_range(key, self.entries().len() as u64);
    }

    /// Storing under one key leaves alone what is found under any key of another slot.
    pub proof fn lemma_set_other_slot(self, after: Self, key: u64, entry: T, other: u64)
        requires
            self.wf(),
            self.entries().len() > 0,
            after.entries() == self.entries().update(
                slot_of(key, self.entries().len() as int),
                (key, entry),
            ),
            slot_of(other, self.entries().len() as int) != slot_of(key, self.entries().len() as int),
        ensures
            after.lookup(other) == self.lookup(other),
    {
        lemma_slot_range(key, self.entries().len() as u64);
        lemma_slot_range(other, self.entries().len() as u64);
    }
}

impl<T: Default + Clone> TranspositionTable<T> {
    /// Create a table of at most `size` bytes: as many empty entries as the largest power of
    /// two that fits. Every key starts at 0.
    pub fn with_histogram(size: usize) -> (r: Self)
        requires
            size <= usize::MAX / 2,
        ensures
            size_of::<Entry<T>>() > 0 ==> r.entries().len() == table_len(
                size as int,
                size_of::<Entry<T>>() as int,
            ),
            forall|i: int| 0 <= i < r.entries().len() ==> #[trigger] r.entries()[i].0 == 0,
    {
        let entry_size = std::mem::size_of::<Entry<T>>();
        let count = if entry_size == 0 {
            // An entry holds a 64-bit key, so it is never empty.
            0
        } else {
            let fit = size / entry_size;
            let mut count = next_power_of_two(fit);
            proof {
                lemma_pow2_bound(fit as int, 1);
                assert(count <= 2 * fit || count == 1);
                assert(fit * entry_size <= size) by (nonlinear_arith)
                    requires
                        fit == size / entry_size,
                        entry_size > 0,
                ;
                assert(count * entry_size <= 2 * size || count == 1) by (nonlinear_arith)
                    requires
                        count <= 2 * fit || count == 1,
                        fit * entry_size <= size,
                        entry_size > 0,
                ;
                assert(count * entry_size <= usize::MAX) by (nonlinear_arith)
                    requires
                        count * entry_size <= 2 * size || count == 1,
                        size <= usize::MAX / 2,
                        entry_size <= usize::MAX,
                ;
            }
            if count * entry_size > size {
                count = count / 2;
            }
            count
        };
        let mut keys: Vec<u64> = Vec::new();
        let mut values: Vec<T> = Vec::new();
        let mut i: usize = 0;
        while i < count
            invariant
                keys@.len() == i,
                values@.len() == i,
                i <= count,
                forall|j: int| 0 <= j < i ==> #[trigger] keys@[j] == 0,
            decreases count - i,
        {
            keys.push(0);
            values.push(T::default());
            i += 1;
        }
        TranspositionTable { keys, values }
    }

    /// Create a table of at most `size` bytes; see `with_histogram`.
    pub fn new(size: usize) -> (r: Self)
        requires
            size <= usize::MAX / 2,
        ensures
            size_of::<Entry<T>>() > 0 ==> r.entries().len() == table_len(
                size as int,
                size_of::<Entry<T>>() as int,
            ),
            forall|i: int| 0 <= i < r.entries().len() ==> #[trigger] r.entries()[i].0 == 0,
    {
        Self::with_histogram(size)
    }
}

} // verus!
