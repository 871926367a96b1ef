use vstd::prelude::*;
use vstd::std_specs::bits::{u32_trailing_zeros, axiom_u32_trailing_zeros};

use crate::board::index::{PieceIndex, colour_of_index};
use crate::colour::Colour;
use crate::square::Square;

verus! {

/// True if bit `i` of `x` is set.
pub open spec fn bit(x: u32, i: int) -> bool {
    0 <= i < 32 && (x >> (i as u32)) & 1 == 1
}

/// The number of set bits of `x` among bits `0..n`.
pub open spec fn bits_below(x: u32, n: int) -> nat
    decreases n,
{
    if n <= 0 {
        0
    } else {
        bits_below(x, n - 1) + if bit(x, n - 1) {
            1nat
        } else {
            0nat
        }
    }
}

/// The number of set bits of `x`.
pub open spec fn popcount(x: u32) -> nat {
    bits_below(x, 32)
}

/// Counting the bits of `x` below `n` when every set bit lies in `lo..hi`: no more than the
/// positions of that range below `n`.
proof fn lemma_bits_below_range(x: u32, lo: int, hi: int, n: int)
    requires
        0 <= lo <= hi,
        forall|i: int| #[trigger] bit(x, i) ==> lo <= i < hi,
    ensures
        bits_below(x, n) <= if n <= lo {
            0
        } else if n <= hi {
            n - lo
        } else {
            hi - lo
        },
    decreases n,
{
    if n > 0 {
        lemma_bits_below_range(x, lo, hi, n - 1);
    }
}

/// A set of slots of one colour holds at most sixteen slots.
pub proof fn lemma_popcount_one_colour(x: u32, c: Colour)
    requires
        forall|i: int| #[trigger] bit(x, i) ==> colour_of_index(i) == c,
    ensures
        popcount(x) <= 16,
{
    if c == Colour::White {
        lemma_bits_below_range(x, 0, 16, 32);
    } else {
        assert forall|i: int| #[trigger] bit(x, i) implies 16 <= i < 32 by {}
        lemma_bits_below_range(x, 16, 32, 32);
    }
}

/// The bits of the white piece slots.
pub open spec fn white_bits() -> u32 {
    0x0000_FFFF
}

/// The bits of the black piece slots.
pub open spec fn black_bits() -> u32 {
    0xFFFF_0000
}

/// The bits of the piece slots of `colour`.
pub open spec fn colour_bits(colour: Colour) -> u32 {
    match colour {
        Colour::White => white_bits(),
        Colour::Black => black_bits(),
    }
}

/// Bitwise operations act bit by bit.
pub proof fn lemma_bit_ops(a: u32, b: u32, i: u32)
    by (bit_vector)
    requires
        i < 32,
    ensures
        ((a & b) >> i) & 1 == 1 <==> ((a >> i) & 1 == 1 && (b >> i) & 1 == 1),
        ((a | b) >> i) & 1 == 1 <==> ((a >> i) & 1 == 1 || (b >> i) & 1 == 1),
        ((!a) >> i) & 1 == 1 <==> !((a >> i) & 1 == 1),
        (0u32 >> i) & 1 != 1,
        (0x0000_FFFFu32 >> i) & 1 == 1 <==> i < 16,
        (0xFFFF_0000u32 >> i) & 1 == 1 <==> i >= 16,
{
}

/// A single-bit mask has exactly one bit.
pub proof fn lemma_single_bit(j: u32, i: u32)
    by (bit_vector)
    requires
        i < 32,
        j < 32,
    ensures
        ((1u32 << j) >> i) & 1 == 1 <==> i == j,
{
}

/// Clearing the lowest set bit.
proof fn lemma_clear_lowest(x: u32, t: u32, i: u32)
    by (bit_vector)
    requires
        x != 0,
        t < 32,
        i < 32,
        (x >> t) & 1 == 1,
        t == 0 || x << (32 - t) as u32 == 0,
    ensures
        ((x & (x - 1) as u32) >> i) & 1 == 1 <==> ((x >> i) & 1 == 1 && i != t),
{
}

/// The empty word has no set bits.
pub proof fn lemma_bits_below_zero(n: int)
    requires
        n >= 0,
    ensures
        bits_below(0u32, n) == 0,
    decreases n,
{
    if n > 0 {
        lemma_bits_below_zero(n - 1);
        if n - 1 < 32 {
            lemma_bit_ops(0, 0, (n - 1) as u32);
        }
    }
}

/// Setting one more bit raises the count below `n` by one once `n` passes it.
proof fn lemma_bits_below_insert(x: u32, y: u32, i: int, n: int)
    requires
        0 <= i < 32,
        !bit(x, i),
        forall|j: int| bit(y, j) <==> (bit(x, j) || j == i),
        n >= 0,
    ensures
        bits_below(y, n) == bits_below(x, n) + if n > i {
            1int
        } else {
            0int
        },
    decreases n,
{
    if n > 0 {
        lemma_bits_below_insert(x, y, i, n - 1);
    }
}

/// Setting a bit that was clear raises the count of set bits by one.
pub proof fn lemma_popcount_insert(x: u32, y: u32, i: int)
    requires
        0 <= i < 32,
        !bit(x, i),
        forall|j: int| bit(y, j) <==> (bit(x, j) || j == i),
    ensures
        popcount(y) == popcount(x) + 1,
        popcount(y) <= 32,
{
    lemma_bits_below_insert(x, y, i, 32);
    lemma_bits_below_bound(y, 32);
}

/// Two words with the same bits are equal.
pub proof fn lemma_bits_ext(a: u32, b: u32)
    requires
        forall|i: int| 0 <= i < 32 ==> (bit(a, i) <==> bit(b, i)),
    ensures
        a == b,
{
    let d = a ^ b;
    if d != 0 {
        axiom_u32_trailing_zeros(d);
        let t = u32_trailing_zeros(d);
        assert(bit(a, t as int) <==> bit(b, t as int));
        assert((d >> t) & 1 == 1 ==> ((a >> t) & 1 == 1) != ((b >> t) & 1 == 1)) by (bit_vector)
            requires
                d == a ^ b,
        ;
        assert(false);
    }
    assert(a ^ b == 0 ==> a == b) by (bit_vector);
}

/// Word-level facts about the lowest set bit.
proof fn lemma_lowest_bit(x: u32)
    requires
        x != 0,
    ensures
        u32_trailing_zeros(x) < 32,
        bit(x, u32_trailing_zeros(x) as int),
        forall|j: int| 0 <= j < u32_trailing_zeros(x) ==> !bit(x, j),
        forall|i: int| bit(x & (x - 1) as u32, i) <==> (bit(x, i) && i != u32_trailing_zeros(x)),
{
    axiom_u32_trailing_zeros(x);
    let t = u32_trailing_zeros(x);
    assert forall|j: int| 0 <= j < t implies !bit(x, j) by {
        assert((x >> (j as u32)) & 1u32 == 0u32);
    }
    assert forall|i: int| bit(x & (x - 1) as u32, i) <==> (bit(x, i) && i != t) by {
        if 0 <= i < 32 {
            lemma_clear_lowest(x, t, i as u32);
        }
    }
}

/// Removing one set bit lowers the count by one.
proof fn lemma_bits_below_remove(x: u32, y: u32, t: int, n: int)
    requires
        0 <= t < 32,
        bit(x, t),
        forall|i: int| bit(y, i) <==> (bit(x, i) && i != t),
    ensures
        n > t ==> bits_below(y, n) + 1 == bits_below(x, n),
        n <= t ==> bits_below(y, n) == bits_below(x, n),
    decreases n,
{
    if n > 0 {
        lemma_bits_below_remove(x, y, t, n - 1);
    }
}

/// The count of set bits among the first `n` bits is at most `n`.
pub proof fn lemma_bits_below_bound(x: u32, n: int)
    requires
        n >= 0,
    ensures
        bits_below(x, n) <= n,
    decreases n,
{
    if n > 0 {
        lemma_bits_below_bound(x, n - 1);
    }
}

/// A set bit below `n` is counted among the bits below `n`.
proof fn lemma_bits_below_one(x: u32, n: int, i: int)
    requires
        0 <= i < n,
        bit(x, i),
    ensures
        bits_below(x, n) >= 1,
    decreases n,
{
    if n - 1 != i {
        lemma_bits_below_one(x, n - 1, i);
    }
}

/// Two set bits below `n` are counted among the bits below `n`.
proof fn lemma_bits_below_two(x: u32, n: int, i: int, j: int)
    requires
        0 <= i < j < n,
        bit(x, i),
        bit(x, j),
    ensures
        bits_below(x, n) >= 2,
    decreases n,
{
    if n - 1 != j {
        lemma_bits_below_two(x, n - 1, i, j);
    } else {
        lemma_bits_below_one(x, n - 1, i);
    }
}

/// Three set bits below `n` are counted among the bits below `n`.
proof fn lemma_bits_below_three(x: u32, n: int, i: int, j: int, l: int)
    requires
        0 <= i < j < l < n,
        bit(x, i),
        bit(x, j),
        bit(x, l),
    ensures
        bits_below(x, n) >= 3,
    decreases n,
{
    if n - 1 != l {
        lemma_bits_below_three(x, n - 1, i, j, l);
    } else {
        lemma_bits_below_two(x, n - 1, i, j);
    }
}

/// A set bit makes a count of at least one.
pub proof fn lemma_popcount_one(x: u32, i: int)
    requires
        bit(x, i),
    ensures
        popcount(x) >= 1,
{
    lemma_bits_below_one(x, 32, i);
}

/// Two different set bits make a count of at least two.
pub proof fn lemma_popcount_two(x: u32, i: int, j: int)
    requires
        i != j,
        bit(x, i),
        bit(x, j),
    ensures
        popcount(x) >= 2,
{
    if i < j {
        lemma_bits_below_two(x, 32, i, j);
    } else {
        lemma_bits_below_two(x, 32, j, i);
    }
}

/// Three different set bits make a count of at least three.
pub proof fn lemma_popcount_three(x: u32, i: int, j: int, l: int)
    requires
        i != j,
        i != l,
        j != l,
        bit(x, i),
        bit(x, j),
        bit(x, l),
    ensures
        popcount(x) >= 3,
{
    if i < j {
        if j < l {
            lemma_bits_below_three(x, 32, i, j, l);
        } else if i < l {
            lemma_bits_below_three(x, 32, i, l, j);
        } else {
            lemma_bits_below_three(x, 32, l, i, j);
        }
    } else {
        if i < l {
            lemma_bits_below_three(x, 32, j, i, l);
        } else if j < l {
            lemma_bits_below_three(x, 32, j, l, i);
        } else {
            lemma_bits_below_three(x, 32, l, j, i);
        }
    }
}

/// Some bit below `n` is set when the count below `n` is at least one.
proof fn lemma_bits_below_witness1(x: u32, n: int) -> (r: int)
    requires
        bits_below(x, n) >= 1,
    ensures
        0 <= r < n,
        bit(x, r),
    decreases n,
{
    if n <= 0 {
        0
    } else if bit(x, n - 1) {
        n - 1
    } else {
        lemma_bits_below_witness1(x, n - 1)
    }
}

/// Two bits below `n` are set when the count below `n` is at least two.
proof fn lemma_bits_below_witness2(x: u32, n: int) -> (r: (int, int))
    requires
        bits_below(x, n) >= 2,
    ensures
        0 <= r.0 < r.1 < n,
        bit(x, r.0),
        bit(x, r.1),
    decreases n,
{
    if n <= 0 {
        (0, 0)
    } else if bit(x, n - 1) {
        let a = lemma_bits_below_witness1(x, n - 1);
        (a, n - 1)
    } else {
        lemma_bits_below_witness2(x, n - 1)
    }
}

/// Three bits below `n` are set when the count below `n` is at least three.
proof fn lemma_bits_below_witness3(x: u32, n: int) -> (r: (int, int, int))
    requires
        bits_below(x, n) >= 3,
    ensures
        0 <= r.0 < r.1 < r.2 < n,
        bit(x, r.0),
        bit(x, r.1),
        bit(x, r.2),
    decreases n,
{
    if n <= 0 {
        (0, 0, 0)
    } else if bit(x, n - 1) {
        let (a, b) = lemma_bits_below_witness2(x, n - 1);
        (a, b, n - 1)
    } else {
        lemma_bits_below_witness3(x, n - 1)
    }
}

/// A count of at least two has two different set bits.
pub proof fn lemma_popcount_witness2(x: u32) -> (r: (int, int))
    requires
        popcount(x) >= 2,
    ensures
        0 <= r.0 < r.1 < 32,
        bit(x, r.0),
        bit(x, r.1),
{
    lemma_bits_below_witness2(x, 32)
}

/// A count of at least three has three different set bits.
pub proof fn lemma_popcount_witness3(x: u32) -> (r: (int, int, int))
    requires
        popcount(x) >= 3,
    ensures
        0 <= r.0 < r.1 < r.2 < 32,
        bit(x, r.0),
        bit(x, r.1),
        bit(x, r.2),
{
    lemma_bits_below_witness3(x, 32)
}

/// A set of 32 bits, each representing a piece.
#[derive(Clone, Copy, Debug, PartialEq, Eq, Structural)]
pub struct Bitlist(u32);

impl View for Bitlist {
    type V = u32;

    closed spec fn view(&self) -> u32 {
        self.0
    }
}

impl Bitlist {
    /// True if the bitlist holds piece slot `i`.
    pub open spec fn has(self, i: int) -> bool {
        bit(self@, i)
    }

    /// Create a new, empty Bitlist.
    pub fn new() -> (r: Bitlist)
        ensures
            r@ == 0,
    {
        Bitlist(0)
    }

    /// Create a bitlist directly from its bits.
    pub fn from_u32(bits: u32) -> (r: Bitlist)
        ensures
            r@ == bits,
    {
        Bitlist(bits)
    }

    /// The bits of this bitlist.
    pub fn into_inner(self) -> (r: u32)
        ensures
            r == self@,
    {
        self.0
    }

    /// Create a mask of the white-piece bits.
    pub fn white() -> (r: Bitlist)
        ensures
            r@ == white_bits(),
    {
        Bitlist(0x0000_FFFF)
    }

    /// Create a mask of the black-piece bits.
    pub fn black() -> (r: Bitlist)
        ensures
            r@ == black_bits(),
    {
        Bitlist(0xFFFF_0000)
    }

    /// Count the number of set bits in a bitlist.
    pub fn count_ones(self) -> (r: u32)
        ensures
            r == popcount(self@),
            r <= 32,
    {
        let x = self.0;
        let mut count: u32 = 0;
        let mut k: u32 = 0;
        while k < 32
            invariant
                k <= 32,
                count == bits_below(x, k as int),
                count <= k,
            decreases 32 - k,
        {
            if (x >> k) & 1 == 1 {
                count = count + 1;
            }
            k = k + 1;
        }
        count
    }

    /// Create a mask corresponding to the bits of a given colour.
    pub fn mask_from_colour(colour: Colour) -> (r: Bitlist)
        ensures
            r@ == colour_bits(colour),
    {
        match colour {
            Colour::White => Self::white(),
            Colour::Black => Self::black(),
        }
    }

    /// Returns true if this `Bitlist` shares a bit with `other`.
    pub fn contains(self, other: Bitlist) -> (r: bool)
        ensures
            r == (self@ & other@ != 0),
    {
        (self.0 & other.0) != 0
    }

    /// Returns true if this `Bitlist` is empty.
    pub fn empty(self) -> (r: bool)
        ensures
            r == (self@ == 0),
    {
        self.0 == 0
    }

    /// Return the lowest set bit of a `Bitlist` as a `PieceIndex`, if it exists.
    pub fn peek(self) -> (r: Option<PieceIndex>)
        ensures
            r is None <==> self@ == 0,
            r matches Some(p) ==> p.index() == u32_trailing_zeros(self@) && self.has(p.index())
                && forall|j: int| 0 <= j < p.index() ==> !self.has(j),
    {
        if self.0 == 0 {
            return None;
        }
        proof {
            lemma_lowest_bit(self.0);
        }
        let bit = self.0.trailing_zeros() as u8;
        Some(PieceIndex::new_unchecked(bit))
    }

    /// Return the lowest set bit of a `Bitlist` as a `PieceIndex`, if it exists, and clear that bit.
    pub fn pop(&mut self) -> (r: Option<PieceIndex>)
        ensures
            r is None <==> old(self)@ == 0,
            r is None ==> final(self)@ == 0,
            r matches Some(p) ==> {
                &&& p.index() == u32_trailing_zeros(old(self)@)
                &&& old(self).has(p.index())
                &&& forall|j: int| 0 <= j < p.index() ==> !old(self).has(j)
                &&& final(self)@ == old(self)@ & (old(self)@ - 1) as u32
                &&& forall|i: int| final(self).has(i) <==> (old(self).has(i) && i != p.index())
                &&& popcount(final(self)@) + 1 == popcount(old(self)@)
            },
    {
        let bit = self.peek();
        match bit {
            None => None,
            Some(p) => {
                proof {
                    lemma_lowest_bit(self.0);
                    lemma_bits_below_remove(self.0, self.0 & (self.0 - 1) as u32, p.index(), 32);
                }
                self.0 = self.0 & self.0.wrapping_sub(1);
                Some(p)
            },
        }
    }

    /// The bitlist holding only `index`.
    pub fn from_piece(index: PieceIndex) -> (r: Bitlist)
        ensures
            r@ == 1u32 << index.index() as u32,
            forall|i: int| r.has(i) <==> i == index.index(),
    {
        let i = index.into_inner() as u32;
        proof {
            assert forall|j: int| bit(1u32 << i, j) <==> j == i by {
                if 0 <= j < 32 {
                    lemma_single_bit(i, j as u32);
                }
            }
        }
        Bitlist(1u32 << i)
    }

    /// Bitwise and.
    pub fn and(self, rhs: Bitlist) -> (r: Bitlist)
        ensures
            r@ == self@ & rhs@,
            forall|i: int| r.has(i) <==> (self.has(i) && rhs.has(i)),
    {
        proof {
            assert forall|i: int| bit(self@ & rhs@, i) <==> (bit(self@, i) && bit(rhs@, i)) by {
                if 0 <= i < 32 {
                    lemma_bit_ops(self@, rhs@, i as u32);
                }
            }
        }
        Bitlist(self.0 & rhs.0)
    }

    /// Bitwise or.
    pub fn or(self, rhs: Bitlist) -> (r: Bitlist)
        ensures
            r@ == self@ | rhs@,
            forall|i: int| r.has(i) <==> (self.has(i) || rhs.has(i)),
    {
        proof {
            assert forall|i: int| bit(self@ | rhs@, i) <==> (bit(self@, i) || bit(rhs@, i)) by {
                if 0 <= i < 32 {
                    lemma_bit_ops(self@, rhs@, i as u32);
                }
            }
        }
        Bitlist(self.0 | rhs.0)
    }

    /// Bitwise complement.
    pub fn invert(self) -> (r: Bitlist)
        ensures
            r@ == !self@,
            forall|i: int| 0 <= i < 32 ==> (r.has(i) <==> !self.has(i)),
    {
        proof {
            assert forall|i: int| 0 <= i < 32 implies (bit(!self@, i) <==> !bit(self@, i)) by {
                lemma_bit_ops(self@, self@, i as u32);
            }
        }
        Bitlist(!self.0)
    }

    /// The slots of a colour are exactly the slot numbers that colour owns.
    pub proof fn lemma_colour_bits(colour: Colour, i: int)
        requires
            0 <= i < 32,
        ensures
            bit(colour_bits(colour), i) <==> colour_of_index(i) == colour,
    {
        lemma_bit_ops(0, 0, i as u32);
    }

    /// An empty bitlist has no bits, and a nonempty one has its lowest bit set.
    pub proof fn lemma_empty(b: Bitlist)
        ensures
            b@ == 0 <==> forall|i: int| !b.has(i),
    {
        if b@ == 0 {
            assert forall|i: int| !b.has(i) by {
                if 0 <= i < 32 {
                    lemma_bit_ops(0, 0, i as u32);
                }
            }
        } else {
            lemma_lowest_bit(b@);
            assert(b.has(u32_trailing_zeros(b@) as int));
        }
    }

    /// An iterator over the set bits, lowest first.
    pub fn into_iter(self) -> (r: BitlistIter)
        ensures
            r.rest() == self,
    {
        BitlistIter(self)
    }
}

/// Iterate over a `Bitlist`, lowest bit first.
pub struct BitlistIter(Bitlist);

impl BitlistIter {
    /// The bits not yet produced.
    pub closed spec fn rest(self) -> Bitlist {
        self.0
    }

    /// Produce the lowest remaining bit.
    pub fn next(&mut self) -> (r: Option<PieceIndex>)
        ensures
            r is None <==> old(self).rest()@ == 0,
            r matches Some(p) ==> p.index() == u32_trailing_zeros(old(self).rest()@) && old(
                self,
            ).rest().has(p.index()) && forall|i: int|
                final(self).rest().has(i) <==> (old(self).rest().has(i) && i != p.index()),
            r matches Some(p) ==> forall|j: int| 0 <= j < p.index() ==> !old(self).rest().has(j),
            r is None ==> final(self).rest()@ == 0,
            popcount(final(self).rest()@) + (if r is Some { 1int } else { 0int }) == popcount(
                old(self).rest()@,
            ),
    {
        self.0.pop()
    }

    /// The exact number of bits left to produce.
    pub fn size_hint(&self) -> (r: (usize, Option<usize>))
        ensures
            r.0 == popcount(self.rest()@),
            r.1 == Some(r.0),
    {
        let n = self.0.count_ones() as usize;
        (n, Some(n))
    }
}

/// The main attack table array: for each square, the set of pieces attacking it.
#[derive(Clone, Copy)]
pub struct BitlistArray([Bitlist; 64]);

impl View for BitlistArray {
    type V = Seq<Bitlist>;

    closed spec fn view(&self) -> Seq<Bitlist> {
        self.0@
    }
}

impl BitlistArray {
    /// The array always has one entry per square.
    pub broadcast proof fn lemma_len(a: BitlistArray)
        ensures
            #[trigger] a@.len() == 64,
    {
    }

    /// Create an empty `BitlistArray`.
    pub fn new() -> (r: BitlistArray)
        ensures
            forall|i: int| 0 <= i < 64 ==> #[trigger] r@[i]@ == 0,
    {
        BitlistArray([Bitlist(0); 64])
    }

    /// The attacks to a square.
    pub fn get(&self, square: Square) -> (r: Bitlist)
        ensures
            r == self@[square.index()],
    {
        self.0[square.into_inner() as usize]
    }

    /// Remove all attacks to a square.
    pub fn clear(&mut self, index: Square)
        ensures
            final(self)@.len() == 64,
            forall|j: int| 0 <= j < 64 && j != index.index() ==> final(self)@[j] == old(self)@[j],
            final(self)@[index.index()]@ == 0,
    {
        let s = index.into_inner() as usize;
        self.0[s] = Bitlist::new();
    }

    /// Add an attack by `piece` to `square`, which must not hold it yet.
    pub fn add_piece(&mut self, square: Square, piece: PieceIndex)
        requires
            !old(self)@[square.index()].has(piece.index()),
        ensures
            final(self)@.len() == 64,
            forall|j: int| 0 <= j < 64 && j != square.index() ==> final(self)@[j] == old(self)@[j],
            final(self)@[square.index()]@ == old(self)@[square.index()]@ | (1u32 << piece.index() as u32),
            forall|i: int|
                final(self)@[square.index()].has(i) <==> (old(self)@[square.index()].has(i) || i
                    == piece.index()),
    {
        let s = square.into_inner() as usize;
        let p = Bitlist::from_piece(piece);
        let cur = self.0[s];
        self.0[s] = cur.or(p);
    }

    /// Remove an attack by `piece` from `square`, which must hold it.
    pub fn remove_piece(&mut self, square: Square, piece: PieceIndex)
        requires
            old(self)@[square.index()].has(piece.index()),
        ensures
            final(self)@.len() == 64,
            forall|j: int| 0 <= j < 64 && j != square.index() ==> final(self)@[j] == old(self)@[j],
            final(self)@[square.index()]@ == old(self)@[square.index()]@ & !(1u32 << piece.index() as u32),
            forall|i: int|
                final(self)@[square.index()].has(i) <==> (old(self)@[square.index()].has(i) && i
                    != piece.index()),
    {
        let s = square.into_inner() as usize;
        let p = Bitlist::from_piece(piece);
        let cur = self.0[s];
        self.0[s] = cur.and(p.invert());
    }
}

} // verus!
