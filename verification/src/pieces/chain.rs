//! Chains of stones and their liberties, kept as a bit set over the board indices.

use vstd::prelude::*;
use crate::pieces::BoardIdx;
use crate::pieces::stones::Color;

verus! {

/// One word of the liberty bit set.
pub type Bucket = u32;

/// Number of words of a liberty bit set (enough for the 361 points of a 19x19 board).
pub const SIZE: usize = 12;
/// Number of bits per word.
pub const BITS: usize = 32;
/// Number of bit positions of a liberty bit set.
pub const LIB_CAPACITY: usize = 384;

/// A set of board indices, one bit per index.
pub type Liberties = [Bucket; 12];

/// True when index `i` is in the set.
pub open spec fn lib_has(lib: Liberties, i: int) -> bool {
    0 <= i < 384 && (lib[i / 32] >> ((i % 32) as u32)) & 1u32 == 1u32
}

/// The indices in the set, in increasing order, among the first `n` positions.
pub open spec fn ones_upto(lib: Liberties, n: nat) -> Seq<usize>
    decreases n,
{
    if n == 0 {
        Seq::empty()
    } else {
        let prev = ones_upto(lib, (n - 1) as nat);
        if lib_has(lib, n - 1) {
            prev.push((n - 1) as usize)
        } else {
            prev
        }
    }
}

/// The indices in the set, in increasing order.
pub open spec fn lib_ones(lib: Liberties) -> Seq<usize> {
    ones_upto(lib, 384)
}

/// The number of indices in the set.
pub open spec fn lib_count(lib: Liberties) -> nat {
    lib_ones(lib).len()
}

/// The indices listed among the first `n` are in the set, below `n`, in increasing order,
/// and every index of the set below `n` is listed.
pub proof fn lemma_ones_upto(lib: Liberties, n: nat)
    requires
        n <= 384,
    ensures
        forall|k: int| 0 <= k < ones_upto(lib, n).len() ==> #[trigger] ones_upto(lib, n)[k] < n && lib_has(lib, ones_upto(lib, n)[k] as int),
        forall|a: int, b: int| 0 <= a < b < ones_upto(lib, n).len() ==> #[trigger] ones_upto(lib, n)[a] < #[trigger] ones_upto(lib, n)[b],
        forall|j: int| 0 <= j < n && lib_has(lib, j) ==> ones_upto(lib, n).contains(j as usize),
    decreases n,
{
    if n > 0 {
        let m = (n - 1) as nat;
        lemma_ones_upto(lib, m);
        let prev = ones_upto(lib, m);
        let cur = ones_upto(lib, n);
        assert forall|j: int| 0 <= j < n && lib_has(lib, j) implies cur.contains(j as usize) by {
            if j < m {
                let k = choose|k: int| 0 <= k < prev.len() && prev[k] == j as usize;
                assert(cur[k] == prev[k]);
            } else {
                assert(cur[cur.len() - 1] == j as usize);
            }
        }
    }
}

/// A set that holds `p` holds exactly one index when `p` is its only index.
pub proof fn lemma_lib_count_one(lib: Liberties, p: int)
    requires
        lib_has(lib, p),
    ensures
        (lib_count(lib) == 1) == (forall|j: int| #[trigger] lib_has(lib, j) ==> j == p),
{
    let s = lib_ones(lib);
    lemma_ones_upto(lib, 384);
    assert(s.contains(p as usize));
    if lib_count(lib) == 1 {
        assert forall|j: int| #[trigger] lib_has(lib, j) implies j == p by {
            assert(s.contains(j as usize));
        }
    } else {
        let k = choose|k: int| 0 <= k < s.len() && s[k] == p as usize;
        assert(s.len() >= 2);
        assert(s[0] < s[1]);
        if s[0] as int != p {
            assert(lib_has(lib, s[0] as int));
        } else {
            assert(lib_has(lib, s[1] as int));
        }
    }
}

/// True when no index is in the set.
pub open spec fn lib_empty(lib: Liberties) -> bool {
    forall|i: int| 0 <= i < 384 ==> !lib_has(lib, i)
}

proof fn lemma_bit_or(x: u32, b: u32, c: u32)
    requires
        b < 32,
        c < 32,
    ensures
        ((x | (1u32 << b)) >> c) & 1u32 == (if b == c { 1u32 } else { (x >> c) & 1u32 }),
{
    assert(((x | (1u32 << b)) >> c) & 1u32 == (if b == c { 1u32 } else { (x >> c) & 1u32 }))
        by (bit_vector)
        requires
            b < 32,
            c < 32,
    ;
}

proof fn lemma_bit_clear(x: u32, b: u32, c: u32)
    requires
        b < 32,
        c < 32,
    ensures
        ((x & !(1u32 << b)) >> c) & 1u32 == (if b == c { 0u32 } else { (x >> c) & 1u32 }),
{
    assert(((x & !(1u32 << b)) >> c) & 1u32 == (if b == c { 0u32 } else { (x >> c) & 1u32 }))
        by (bit_vector)
        requires
            b < 32,
            c < 32,
    ;
}

proof fn lemma_bit_union(x: u32, y: u32, c: u32)
    requires
        c < 32,
    ensures
        (((x | y) >> c) & 1u32 == 1u32) == (((x >> c) & 1u32 == 1u32) || ((y >> c) & 1u32
            == 1u32)),
{
    assert((((x | y) >> c) & 1u32 == 1u32) == (((x >> c) & 1u32 == 1u32) || ((y >> c) & 1u32
        == 1u32))) by (bit_vector)
        requires
            c < 32,
    ;
}

proof fn lemma_bit_test(x: u32, b: u32)
    requires
        b < 32,
    ensures
        ((x & (1u32 << b)) != 0u32) == ((x >> b) & 1u32 == 1u32),
{
    assert(((x & (1u32 << b)) != 0u32) == ((x >> b) & 1u32 == 1u32)) by (bit_vector)
        requires
            b < 32,
    ;
}

proof fn lemma_word_zero(x: u32, c: u32)
    requires
        c < 32,
    ensures
        x == 0u32 ==> (x >> c) & 1u32 == 0u32,
{
    assert(x == 0u32 ==> (x >> c) & 1u32 == 0u32) by (bit_vector);
}

proof fn lemma_word_nonzero(x: u32)
    requires
        x != 0u32,
    ensures
        exists|c: u32| c < 32 && #[trigger] ((x >> c) & 1u32) == 1u32,
{
    assert((x >> 0u32) & 1u32 == 1u32 || (x >> 1u32) & 1u32 == 1u32 || (x >> 2u32) & 1u32 == 1u32
        || (x >> 3u32) & 1u32 == 1u32 || (x >> 4u32) & 1u32 == 1u32 || (x >> 5u32) & 1u32 == 1u32
        || (x >> 6u32) & 1u32 == 1u32 || (x >> 7u32) & 1u32 == 1u32 || (x >> 8u32) & 1u32 == 1u32
        || (x >> 9u32) & 1u32 == 1u32 || (x >> 10u32) & 1u32 == 1u32 || (x >> 11u32) & 1u32
        == 1u32 || (x >> 12u32) & 1u32 == 1u32 || (x >> 13u32) & 1u32 == 1u32 || (x >> 14u32)
        & 1u32 == 1u32 || (x >> 15u32) & 1u32 == 1u32 || (x >> 16u32) & 1u32 == 1u32 || (x
        >> 17u32) & 1u32 == 1u32 || (x >> 18u32) & 1u32 == 1u32 || (x >> 19u32) & 1u32 == 1u32
        || (x >> 20u32) & 1u32 == 1u32 || (x >> 21u32) & 1u32 == 1u32 || (x >> 22u32) & 1u32
        == 1u32 || (x >> 23u32) & 1u32 == 1u32 || (x >> 24u32) & 1u32 == 1u32 || (x >> 25u32)
        & 1u32 == 1u32 || (x >> 26u32) & 1u32 == 1u32 || (x >> 27u32) & 1u32 == 1u32 || (x
        >> 28u32) & 1u32 == 1u32 || (x >> 29u32) & 1u32 == 1u32 || (x >> 30u32) & 1u32 == 1u32
        || (x >> 31u32) & 1u32 == 1u32) by (bit_vector)
        requires
            x != 0u32,
    ;
    if (x >> 0u32) & 1u32 == 1u32 { assert(((x >> 0u32) & 1u32) == 1u32); }
    else if (x >> 1u32) & 1u32 == 1u32 { assert(((x >> 1u32) & 1u32) == 1u32); }
    else if (x >> 2u32) & 1u32 == 1u32 { assert(((x >> 2u32) & 1u32) == 1u32); }
    else if (x >> 3u32) & 1u32 == 1u32 { assert(((x >> 3u32) & 1u32) == 1u32); }
    else if (x >> 4u32) & 1u32 == 1u32 { assert(((x >> 4u32) & 1u32) == 1u32); }
    else if (x >> 5u32) & 1u32 == 1u32 { assert(((x >> 5u32) & 1u32) == 1u32); }
    else if (x >> 6u32) & 1u32 == 1u32 { assert(((x >> 6u32) & 1u32) == 1u32); }
    else if (x >> 7u32) & 1u32 == 1u32 { assert(((x >> 7u32) & 1u32) == 1u32); }
    else if (x >> 8u32) & 1u32 == 1u32 { assert(((x >> 8u32) & 1u32) == 1u32); }
    else if (x >> 9u32) & 1u32 == 1u32 { assert(((x >> 9u32) & 1u32) == 1u32); }
    else if (x >> 10u32) & 1u32 == 1u32 { assert(((x >> 10u32) & 1u32) == 1u32); }
    else if (x >> 11u32) & 1u32 == 1u32 { assert(((x >> 11u32) & 1u32) == 1u32); }
    else if (x >> 12u32) & 1u32 == 1u32 { assert(((x >> 12u32) & 1u32) == 1u32); }
    else if (x >> 13u32) & 1u32 == 1u32 { assert(((x >> 13u32) & 1u32) == 1u32); }
    else if (x >> 14u32) & 1u32 == 1u32 { assert(((x >> 14u32) & 1u32) == 1u32); }
    else if (x >> 15u32) & 1u32 == 1u32 { assert(((x >> 15u32) & 1u32) == 1u32); }
    else if (x >> 16u32) & 1u32 == 1u32 { assert(((x >> 16u32) & 1u32) == 1u32); }
    else if (x >> 17u32) & 1u32 == 1u32 { assert(((x >> 17u32) & 1u32) == 1u32); }
    else if (x >> 18u32) & 1u32 == 1u32 { assert(((x >> 18u32) & 1u32) == 1u32); }
    else if (x >> 19u32) & 1u32 == 1u32 { assert(((x >> 19u32) & 1u32) == 1u32); }
    else if (x >> 20u32) & 1u32 == 1u32 { assert(((x >> 20u32) & 1u32) == 1u32); }
    else if (x >> 21u32) & 1u32 == 1u32 { assert(((x >> 21u32) & 1u32) == 1u32); }
    else if (x >> 22u32) & 1u32 == 1u32 { assert(((x >> 22u32) & 1u32) == 1u32); }
    else if (x >> 23u32) & 1u32 == 1u32 { assert(((x >> 23u32) & 1u32) == 1u32); }
    else if (x >> 24u32) & 1u32 == 1u32 { assert(((x >> 24u32) & 1u32) == 1u32); }
    else if (x >> 25u32) & 1u32 == 1u32 { assert(((x >> 25u32) & 1u32) == 1u32); }
    else if (x >> 26u32) & 1u32 == 1u32 { assert(((x >> 26u32) & 1u32) == 1u32); }
    else if (x >> 27u32) & 1u32 == 1u32 { assert(((x >> 27u32) & 1u32) == 1u32); }
    else if (x >> 28u32) & 1u32 == 1u32 { assert(((x >> 28u32) & 1u32) == 1u32); }
    else if (x >> 29u32) & 1u32 == 1u32 { assert(((x >> 29u32) & 1u32) == 1u32); }
    else if (x >> 30u32) & 1u32 == 1u32 { assert(((x >> 30u32) & 1u32) == 1u32); }
    else { assert(((x >> 31u32) & 1u32) == 1u32); }
}

/// The empty set.
pub fn empty_liberties() -> (r: Liberties)
    ensures
        lib_empty(r),
{
    let r: Liberties = [0u32; 12];
    assert forall|i: int| 0 <= i < 384 implies !lib_has(r, i) by {
        lemma_word_zero(r[i / 32], (i % 32) as u32);
    }
    r
}

/// Adds (`VAL` true) or removes (`VAL` false) `index` from the set.
pub fn set<const VAL: bool>(index: usize, lib: &mut Liberties)
    requires
        index < 384,
    ensures
        forall|j: int|
            0 <= j < 384 ==> #[trigger] lib_has(*final(lib), j) == (if j == index {
                VAL
            } else {
                lib_has(*old(lib), j)
            }),
{
    let chunk = index / BITS;
    let bit_index = index % BITS;
    let mask: u32 = 1u32 << (bit_index as u32);
    if VAL {
        lib[chunk] = lib[chunk] | mask;
    } else {
        lib[chunk] = lib[chunk] & !mask;
    }
    assert forall|j: int| 0 <= j < 384 implies #[trigger] lib_has(*lib, j) == (if j == index {
        VAL
    } else {
        lib_has(*old(lib), j)
    }) by {
        if j / 32 == chunk as int {
            if VAL {
                lemma_bit_or(old(lib)[chunk as int], bit_index as u32, (j % 32) as u32);
            } else {
                lemma_bit_clear(old(lib)[chunk as int], bit_index as u32, (j % 32) as u32);
            }
        }
    }
}

/// True when `x` is among the first `k` items of `s`.
pub open spec fn prefix_contains(s: Seq<usize>, k: int, x: int) -> bool {
    exists|m: int| 0 <= m < k && #[trigger] s[m] as int == x
}

proof fn lemma_prefix_step(s: Seq<usize>, k: int)
    requires
        0 <= k < s.len(),
    ensures
        forall|x: int| #[trigger] prefix_contains(s, k + 1, x) == (prefix_contains(s, k, x) || s[k] as int == x),
{
    assert forall|x: int| #[trigger] prefix_contains(s, k + 1, x) == (prefix_contains(s, k, x) || s[k] as int == x) by {
        if prefix_contains(s, k + 1, x) {
            let m = choose|m: int| 0 <= m < k + 1 && #[trigger] s[m] as int == x;
            if m < k {
                assert(prefix_contains(s, k, x));
            }
        }
        if prefix_contains(s, k, x) {
            let m = choose|m: int| 0 <= m < k && #[trigger] s[m] as int == x;
            assert(s[m] as int == x);
        }
        if s[k] as int == x {
            assert(s[k] as int == x);
        }
    }
}

proof fn lemma_prefix_all(s: Seq<usize>)
    ensures
        forall|x: int| 0 <= x < 384 ==> #[trigger] prefix_contains(s, s.len() as int, x) == s.contains(x as usize),
{
    assert forall|x: int| 0 <= x < 384 implies #[trigger] prefix_contains(s, s.len() as int, x) == s.contains(x as usize) by {
        if s.contains(x as usize) {
            let m = choose|m: int| 0 <= m < s.len() && s[m] == x as usize;
            assert(s[m] as int == x);
        }
    }
}

/// Adds every index of `o` to `lib`.
pub fn merge(lib: &mut Liberties, o: &Liberties)
    ensures
        forall|j: int|
            0 <= j < 384 ==> #[trigger] lib_has(*final(lib), j) == (lib_has(*old(lib), j)
                || lib_has(*o, j)),
{
    let ghost old_lib = *lib;
    let mut k: usize = 0;
    while k < SIZE
        invariant
            0 <= k <= 12,
            forall|w: int| 0 <= w < k ==> lib[w] == old_lib[w] | o[w],
            forall|w: int| k <= w < 12 ==> lib[w] == old_lib[w],
        decreases 12 - k,
    {
        lib[k] = lib[k] | o[k];
        k += 1;
    }
    assert forall|j: int| 0 <= j < 384 implies #[trigger] lib_has(*lib, j) == (lib_has(old_lib, j)
        || lib_has(*o, j)) by {
        lemma_bit_union(old_lib[j / 32], o[j / 32], (j % 32) as u32);
    }
}

/// True when the set holds at least one index.
pub fn any(lib: &Liberties) -> (r: bool)
    ensures
        r == !lib_empty(*lib),
{
    let mut k: usize = 0;
    while k < SIZE
        invariant
            0 <= k <= 12,
            forall|w: int| 0 <= w < k ==> lib[w] == 0u32,
        decreases 12 - k,
    {
        if lib[k] != 0 {
            proof {
                lemma_word_nonzero(lib[k as int]);
                let c = choose|c: u32| c < 32 && #[trigger] ((lib[k as int] >> c) & 1u32) == 1u32;
                assert(lib_has(*lib, k * 32 + c));
            }
            return true;
        }
        k += 1;
    }
    assert forall|i: int| 0 <= i < 384 implies !lib_has(*lib, i) by {
        lemma_word_zero(lib[i / 32], (i % 32) as u32);
    }
    false
}

/// True when `index` is in the set.
pub fn get(index: usize, lib: &Liberties) -> (r: bool)
    requires
        index < 384,
    ensures
        r == lib_has(*lib, index as int),
{
    let chunk = index / BITS;
    let bit_index = index % BITS;
    proof {
        lemma_bit_test(lib[chunk as int], bit_index as u32);
    }
    (lib[chunk] & (1u32 << (bit_index as u32))) != 0
}

/// The number of indices in the set.
pub fn count_ones(lib: &Liberties) -> (r: usize)
    ensures
        r == lib_count(*lib),
        r <= 384,
{
    let mut n: usize = 0;
    let mut i: usize = 0;
    while i < LIB_CAPACITY
        invariant
            0 <= i <= 384,
            n == ones_upto(*lib, i as nat).len(),
            n <= i,
        decreases 384 - i,
    {
        if get(i, lib) {
            n += 1;
        }
        i += 1;
    }
    n
}

/// The indices in the set, in increasing order.
pub fn iter_ones(lib: &Liberties) -> (r: Vec<usize>)
    ensures
        r@ == lib_ones(*lib),
{
    let mut v: Vec<usize> = Vec::new();
    let mut i: usize = 0;
    while i < LIB_CAPACITY
        invariant
            0 <= i <= 384,
            v@ == ones_upto(*lib, i as nat),
        decreases 384 - i,
    {
        if get(i, lib) {
            v.push(i);
        }
        i += 1;
    }
    v
}

/// A chain (also called a string): connected stones of one color. Its stones form a
/// circular list through the goban's `next_stone` table, from `origin` to `last`.
#[derive(Clone, Debug, PartialEq, Eq, Copy, Hash)]
pub struct Chain {
    pub color: Color,
    pub origin: u16,
    pub last: u16,
    pub liberties: Liberties,
    pub used: bool,
    pub num_stones: u16,
}

impl Chain {
    /// A chain of one stone, without liberties.
    pub fn new(color: Color, stone: BoardIdx) -> (r: Self)
        requires
            stone < 65536,
        ensures
            r.color == color,
            r.origin == stone,
            r.last == stone,
            lib_empty(r.liberties),
            r.used,
            r.num_stones == 1,
    {
        Self::new_with_liberties(color, stone, empty_liberties())
    }

    /// A chain of one stone with the given liberties.
    pub fn new_with_liberties(color: Color, stone: BoardIdx, liberties: Liberties) -> (r: Self)
        requires
            stone < 65536,
        ensures
            r.color == color,
            r.origin == stone,
            r.last == stone,
            r.liberties == liberties,
            r.used,
            r.num_stones == 1,
    {
        Chain { color, origin: stone as u16, last: stone as u16, liberties, used: true, num_stones: 1 }
    }

    /// True when the chain has no liberty left.
    pub fn is_dead(&self) -> (r: bool)
        ensures
            r == lib_empty(self.liberties),
    {
        !any(&self.liberties)
    }

    /// The number of liberties.
    pub fn number_of_liberties(&self) -> (r: usize)
        ensures
            r == lib_count(self.liberties),
            r <= 384,
    {
        count_ones(&self.liberties)
    }

    /// A chain is in atari when it has exactly one liberty.
    pub fn is_atari(&self) -> (r: bool)
        ensures
            r == (lib_count(self.liberties) == 1),
    {
        self.number_of_liberties() == 1
    }

    /// True when the point is a liberty of the chain.
    pub fn contains_liberty(&self, stone_idx: BoardIdx) -> (r: bool)
        requires
            stone_idx < 384,
        ensures
            r == lib_has(self.liberties, stone_idx as int),
    {
        get(stone_idx, &self.liberties)
    }

    /// Removes a liberty that the chain has.
    pub fn remove_liberty(&mut self, stone_idx: BoardIdx)
        requires
            stone_idx < 384,
            lib_has(old(self).liberties, stone_idx as int),
        ensures
            final(self).color == old(self).color,
            final(self).origin == old(self).origin,
            final(self).last == old(self).last,
            final(self).used == old(self).used,
            final(self).num_stones == old(self).num_stones,
            forall|j: int|
                0 <= j < 384 ==> #[trigger] lib_has(final(self).liberties, j) == (j != stone_idx
                    && lib_has(old(self).liberties, j)),
    {
        set::<false>(stone_idx, &mut self.liberties);
    }

    fn add_liberty_unchecked(&mut self, stone_idx: BoardIdx)
        requires
            stone_idx < 384,
        ensures
            final(self).color == old(self).color,
            final(self).origin == old(self).origin,
            final(self).last == old(self).last,
            final(self).used == old(self).used,
            final(self).num_stones == old(self).num_stones,
            forall|j: int|
                0 <= j < 384 ==> #[trigger] lib_has(final(self).liberties, j) == (j == stone_idx
                    || lib_has(old(self).liberties, j)),
    {
        set::<true>(stone_idx, &mut self.liberties);
    }

    /// Adds a liberty that the chain does not have yet.
    pub fn add_liberty(&mut self, stone_idx: BoardIdx)
        requires
            stone_idx < 384,
            !lib_has(old(self).liberties, stone_idx as int),
        ensures
            final(self).color == old(self).color,
            final(self).origin == old(self).origin,
            final(self).last == old(self).last,
            final(self).used == old(self).used,
            final(self).num_stones == old(self).num_stones,
            forall|j: int|
                0 <= j < 384 ==> #[trigger] lib_has(final(self).liberties, j) == (j == stone_idx
                    || lib_has(old(self).liberties, j)),
    {
        self.add_liberty_unchecked(stone_idx);
    }

    /// Adds liberties that the chain does not have yet, none of them twice.
    pub fn add_liberties(&mut self, stones_idx: &[BoardIdx])
        requires
            forall|k: int| 0 <= k < stones_idx@.len() ==> #[trigger] stones_idx@[k] < 384,
            forall|k: int|
                0 <= k < stones_idx@.len() ==> !lib_has(
                    old(self).liberties,
                    #[trigger] stones_idx@[k] as int,
                ),
            stones_idx@.no_duplicates(),
        ensures
            final(self).color == old(self).color,
            final(self).origin == old(self).origin,
            final(self).last == old(self).last,
            final(self).used == old(self).used,
            final(self).num_stones == old(self).num_stones,
            forall|j: int|
                0 <= j < 384 ==> #[trigger] lib_has(final(self).liberties, j) == (
                stones_idx@.contains(j as usize) || lib_has(old(self).liberties, j)),
    {
        let mut k: usize = 0;
        while k < stones_idx.len()
            invariant
                0 <= k <= stones_idx@.len(),
                forall|m: int| 0 <= m < stones_idx@.len() ==> #[trigger] stones_idx@[m] < 384,
                forall|m: int|
                    0 <= m < stones_idx@.len() ==> !lib_has(
                        old(self).liberties,
                        #[trigger] stones_idx@[m] as int,
                    ),
                stones_idx@.no_duplicates(),
                self.color == old(self).color,
                self.origin == old(self).origin,
                self.last == old(self).last,
                self.used == old(self).used,
                self.num_stones == old(self).num_stones,
                forall|j: int|
                    0 <= j < 384 ==> #[trigger] lib_has(self.liberties, j) == (
                    prefix_contains(stones_idx@, k as int, j) || lib_has(
                        old(self).liberties,
                        j,
                    )),
            decreases stones_idx@.len() - k,
        {
            let idx = stones_idx[k];
            proof {
                if lib_has(self.liberties, idx as int) {
                    let m = choose|m: int| 0 <= m < k && stones_idx@[m] as int == idx as int;
                    assert(stones_idx@[m] == stones_idx@[k as int]);
                }
            }
            self.add_liberty(idx);
            proof {
                lemma_prefix_step(stones_idx@, k as int);
            }
            k += 1;
        }
        proof {
            lemma_prefix_all(stones_idx@);
        }
    }

    /// Adds every liberty of `liberties_idx`.
    pub fn union_liberties(&mut self, liberties_idx: Liberties)
        ensures
            final(self).color == old(self).color,
            final(self).origin == old(self).origin,
            final(self).last == old(self).last,
            final(self).used == old(self).used,
            final(self).num_stones == old(self).num_stones,
            forall|j: int|
                0 <= j < 384 ==> #[trigger] lib_has(final(self).liberties, j) == (lib_has(
                    old(self).liberties,
                    j,
                ) || lib_has(liberties_idx, j)),
    {
        merge(&mut self.liberties, &liberties_idx);
    }

    /// Adds every index of the slice as a liberty (present ones stay).
    pub fn union_liberties_slice(&mut self, stones_idx: &[BoardIdx])
        requires
            forall|k: int| 0 <= k < stones_idx@.len() ==> #[trigger] stones_idx@[k] < 384,
        ensures
            final(self).color == old(self).color,
            final(self).origin == old(self).origin,
            final(self).last == old(self).last,
            final(self).used == old(self).used,
            final(self).num_stones == old(self).num_stones,
            forall|j: int|
                0 <= j < 384 ==> #[trigger] lib_has(final(self).liberties, j) == (
                stones_idx@.contains(j as usize) || lib_has(old(self).liberties, j)),
    {
        let mut k: usize = 0;
        while k < stones_idx.len()
            invariant
                0 <= k <= stones_idx@.len(),
                forall|m: int| 0 <= m < stones_idx@.len() ==> #[trigger] stones_idx@[m] < 384,
                self.color == old(self).color,
                self.origin == old(self).origin,
                self.last == old(self).last,
                self.used == old(self).used,
                self.num_stones == old(self).num_stones,
                forall|j: int|
                    0 <= j < 384 ==> #[trigger] lib_has(self.liberties, j) == (
                    prefix_contains(stones_idx@, k as int, j) || lib_has(
                        old(self).liberties,
                        j,
                    )),
            decreases stones_idx@.len() - k,
        {
            let idx = stones_idx[k];
            self.add_liberty_unchecked(idx);
            proof {
                lemma_prefix_step(stones_idx@, k as int);
            }
            k += 1;
        }
        proof {
            lemma_prefix_all(stones_idx@);
        }
    }

    /// The liberties, in increasing order.
    pub fn liberties(&self) -> (r: Vec<usize>)
        ensures
            r@ == lib_ones(self.liberties),
    {
        iter_ones(&self.liberties)
    }
}

/// The set of the indices of a slice.
pub fn liberties_from_slice(stones_idx: &[BoardIdx]) -> (r: Liberties)
    requires
        forall|k: int| 0 <= k < stones_idx@.len() ==> #[trigger] stones_idx@[k] < 384,
    ensures
        forall|j: int| 0 <= j < 384 ==> #[trigger] lib_has(r, j) == stones_idx@.contains(j as usize),
{
    let mut ch = Chain::new(Color::Black, 0);
    ch.union_liberties_slice(stones_idx);
    ch.liberties
}

} // verus!
