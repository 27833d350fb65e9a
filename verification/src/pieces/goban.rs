//! The goban: stones grouped in chains, with their liberties and a Zobrist hash.
//!
//! The board holds, for each point, the index of the chain that occupies it. Each chain
//! keeps its stones as a circular list through `next_stone`, its liberties as a bit set,
//! and its number of stones.

use vstd::prelude::*;
use vstd::set_lib::{lemma_int_range, lemma_len_subset, lemma_map_size, set_int_range};
use arrayvec::ArrayVec;
use crate::pieces::chain::{
    empty_liberties, lib_empty, lib_has, liberties_from_slice, merge, Chain, Liberties,
};
use crate::pieces::connections::{idx4_contains, idx4_get, idx4_items, idx4_len, idx4_new, idx4_push, idx4_slice};
use crate::pieces::geometry::{
    adjacent, area, lemma_adjacent_sym, lemma_area, lemma_idx, lemma_idx_inv, lemma_nb, lemma_nb_list, nb, nb_list,
    nb_valid, neighbors_idx, opp,
};
use crate::pieces::stones::{Color, MaybeColor, Point, Stone};
use crate::pieces::util::coord::{one_to_2dim, spec_coord_valid, spec_idx, two_to_1dim, Coord, Size};
use crate::pieces::zobrist::{index_zobrist, zobrist_key};
use crate::pieces::BoardIdx;

verus! {

/// Index of a chain in the goban's table of chains.
pub type GroupIdx = usize;

/// Number of points of the largest goban.
pub const BOARD_MAX_LENGTH: usize = 361;

/// The key that a point contributes to the hash of a position.
pub open spec fn stone_key(i: int, v: Option<Color>) -> u64 {
    match v {
        Some(c) => zobrist_key(i, c),
        None => 0u64,
    }
}

/// The Zobrist hash of the first `n` points of a position: the XOR of the keys of its
/// stones.
pub open spec fn pos_hash(pos: Seq<Option<Color>>, n: nat) -> u64
    decreases n,
{
    if n == 0 {
        0u64
    } else {
        pos_hash(pos, (n - 1) as nat) ^ stone_key(n - 1, pos[n - 1])
    }
}

proof fn lemma_xor_swap(a: u64, b: u64, c: u64)
    ensures
        (a ^ b) ^ c == (a ^ c) ^ b,
        (a ^ b) ^ b == a,
        a ^ 0u64 == a,
{
    assert((a ^ b) ^ c == (a ^ c) ^ b) by (bit_vector);
    assert((a ^ b) ^ b == a) by (bit_vector);
    assert(a ^ 0u64 == a) by (bit_vector);
}

proof fn lemma_xor_update(h: u64, ko: u64, kn: u64, t: u64)
    ensures
        ((h ^ ko) ^ kn) ^ t == ((h ^ t) ^ ko) ^ kn,
        (h ^ kn) == ((h ^ ko) ^ ko) ^ kn,
{
    assert(((h ^ ko) ^ kn) ^ t == ((h ^ t) ^ ko) ^ kn) by (bit_vector);
    assert((h ^ kn) == ((h ^ ko) ^ ko) ^ kn) by (bit_vector);
}

/// Changing one point changes the hash by the XOR of the old and the new key of that point.
pub proof fn lemma_pos_hash_update(pos: Seq<Option<Color>>, p: int, v: Option<Color>, n: nat)
    requires
        0 <= p < pos.len(),
        n <= pos.len(),
    ensures
        pos_hash(pos.update(p, v), n) == (if p < n {
            (pos_hash(pos, n) ^ stone_key(p, pos[p])) ^ stone_key(p, v)
        } else {
            pos_hash(pos, n)
        }),
    decreases n,
{
    if n > 0 {
        lemma_pos_hash_update(pos, p, v, (n - 1) as nat);
        let q = pos.update(p, v);
        let ko = stone_key(p, pos[p]);
        let kn = stone_key(p, v);
        if p == n - 1 {
            lemma_xor_update(pos_hash(pos, (n - 1) as nat), ko, kn, 0u64);
            lemma_xor_swap(pos_hash(pos, (n - 1) as nat), ko, kn);
        } else if p < n - 1 {
            lemma_xor_update(pos_hash(pos, (n - 1) as nat), ko, kn, stone_key(n - 1, pos[n - 1]));
        }
    }
}

/// Positions that agree on their first `n` points hash alike.
pub proof fn lemma_pos_hash_ext(a: Seq<Option<Color>>, b: Seq<Option<Color>>, n: nat)
    requires
        n <= a.len(),
        n <= b.len(),
        forall|i: int| 0 <= i < n ==> a[i] == b[i],
    ensures
        pos_hash(a, n) == pos_hash(b, n),
    decreases n,
{
    if n > 0 {
        lemma_pos_hash_ext(a, b, (n - 1) as nat);
    }
}

proof fn lemma_pos_hash_empty(pos: Seq<Option<Color>>, n: nat)
    requires
        n <= pos.len(),
        forall|i: int| 0 <= i < n ==> pos[i] is None,
    ensures
        pos_hash(pos, n) == 0u64,
    decreases n,
{
    if n > 0 {
        lemma_pos_hash_empty(pos, (n - 1) as nat);
        lemma_xor_swap(0u64, 0u64, 0u64);
    }
}

/// If `f` maps `0..n` one-to-one into `0..m` and misses `hole`, then `n < m`.
proof fn lemma_pigeonhole(f: spec_fn(int) -> int, n: int, m: int, hole: int)
    requires
        0 <= n,
        0 <= hole < m,
        forall|i: int| 0 <= i < n ==> 0 <= #[trigger] f(i) < m && f(i) != hole,
        forall|i: int, j: int| 0 <= i < n && 0 <= j < n && i != j ==> #[trigger] f(i) != #[trigger] f(j),
    ensures
        n < m,
{
    let x = set_int_range(0, n);
    lemma_int_range(0, n);
    let y = x.map(f);
    assert(vstd::relations::injective_on(f, x)) by {
        assert forall|a: int, b: int| x.contains(a) && x.contains(b) && #[trigger] f(a) == #[trigger] f(b) implies a == b by {}
    }
    lemma_map_size(x, y, f);
    let z = set_int_range(0, m).remove(hole);
    lemma_int_range(0, m);
    assert(y.subset_of(z)) by {
        assert forall|v: int| y.contains(v) implies z.contains(v) by {
            let i = choose|i: int| x.contains(i) && f(i) == v;
        }
    }
    lemma_len_subset(y, z);
}

/// Represents a goban. The stones are stored in row-major order (row, column).
pub struct Goban {
    chains: Vec<Option<Chain>>,
    board: Vec<Option<u16>>,
    next_stone: Vec<u16>,
    size: Size,
    zobrist_hash: u64,
    members: Ghost<Seq<Seq<int>>>,
}

/// The content of a goban as mathematical values.
pub ghost struct GobanView {
    pub chains: Seq<Option<Chain>>,
    pub board: Seq<Option<u16>>,
    pub next_stone: Seq<u16>,
    pub size: Size,
    pub hash: u64,
    pub members: Seq<Seq<int>>,
}

impl View for Goban {
    type V = GobanView;

    closed spec fn view(&self) -> GobanView {
        GobanView {
            chains: self.chains@,
            board: self.board@,
            next_stone: self.next_stone@,
            size: self.size,
            hash: self.zobrist_hash,
            members: self.members@,
        }
    }
}

/// The successor of the `k`-th item in a circular list.
pub open spec fn succ(l: Seq<int>, k: int) -> int {
    if k + 1 < l.len() {
        l[k + 1]
    } else {
        l[0]
    }
}

impl GobanView {
    /// The number of points.
    pub open spec fn area(self) -> int {
        area(self.size)
    }

    /// The chain index stored on point `i`.
    pub open spec fn chain_of(self, i: int) -> Option<u16> {
        self.board[i]
    }

    /// True when slot `c` holds a chain.
    pub open spec fn chain_live(self, c: int) -> bool {
        0 <= c < self.chains.len() && self.chains[c] is Some
    }

    /// The chain in slot `c`.
    pub open spec fn chain(self, c: int) -> Chain {
        self.chains[c].unwrap()
    }

    /// The content of point `i`.
    pub open spec fn color_at(self, i: int) -> Option<Color> {
        match self.board[i] {
            Some(c) => Some(self.chains[c as int].unwrap().color),
            None => None,
        }
    }

    /// The position: the content of each of the 361 board indices.
    pub open spec fn pos(self) -> Seq<Option<Color>> {
        Seq::new(361, |i: int| self.color_at(i))
    }

    /// True when chain `c` occupies a neighbor of `j`.
    pub open spec fn touches(self, c: int, j: int) -> bool {
        exists|d: int| 0 <= d < 4 && nb_valid(self.size, j, d) && #[trigger] self.board[nb(self.size, j, d)] == Some(c as u16)
    }

    /// True when `j` is a liberty of chain `c`: an empty point next to one of its stones.
    pub open spec fn is_lib(self, c: int, j: int) -> bool {
        0 <= j < area(self.size) && self.board[j] is None && self.touches(c, j)
    }

    /// The circular list of chain `c` is consistent with the board.
    pub open spec fn chain_list_ok(self, c: int) -> bool {
        let l = self.members[c];
        let ch = self.chains[c].unwrap();
        &&& l.len() >= 1
        &&& l.len() == ch.num_stones as int
        &&& l.no_duplicates()
        &&& ch.origin as int == l[0]
        &&& ch.last as int == l[l.len() - 1]
        &&& forall|k: int| 0 <= k < l.len() ==> {
            &&& 0 <= #[trigger] l[k] < area(self.size)
            &&& self.board[l[k]] == Some(c as u16)
            &&& self.next_stone[l[k]] as int == succ(l, k)
        }
    }

    /// The chain on point `i` exists and lists `i`.
    pub open spec fn board_entry_ok(self, i: int) -> bool {
        let c = self.board[i].unwrap() as int;
        &&& i < area(self.size)
        &&& c < self.chains.len()
        &&& self.chains[c] is Some
        &&& self.members[c].contains(i)
    }

    /// Board, chains and circular lists agree.
    pub open spec fn struct_ok(self) -> bool {
        &&& self.board.len() == 361
        &&& self.next_stone.len() == 361
        &&& self.size.0 <= 19
        &&& self.size.1 <= 19
        &&& self.chains.len() == self.members.len()
        &&& self.chains.len() <= 361
        &&& forall|c: int| 0 <= c < self.chains.len() && #[trigger] self.chains[c] is Some ==> self.chain_list_ok(c)
        &&& forall|i: int| 0 <= i < 361 && #[trigger] self.board[i] is Some ==> self.board_entry_ok(i)
    }

    /// The liberty set of each chain is the set of its liberties.
    pub open spec fn libs_ok(self) -> bool {
        forall|c: int, j: int|
            0 <= c < self.chains.len() && self.chains[c] is Some && 0 <= j < 384 ==> (#[trigger] lib_has(self.chains[c].unwrap().liberties, j) == #[trigger] self.is_lib(c, j))
    }

    /// Adjacent stones of one color belong to one chain.
    pub open spec fn maximal_ok(self) -> bool {
        forall|i: int, d: int|
            0 <= d < 4 && #[trigger] nb_valid(self.size, i, d) && self.board[i] is Some && self.board[nb(self.size, i, d)] is Some
                && self.color_at(i) == self.color_at(nb(self.size, i, d)) ==> self.board[i] == self.board[nb(self.size, i, d)]
    }

    /// The stored hash is the hash of the position.
    pub open spec fn hash_ok(self) -> bool {
        self.hash == pos_hash(self.pos(), 361)
    }

    /// The goban is well formed: chains, board and liberties agree, adjacent stones of one
    /// color share a chain, and the hash is the hash of the position.
    pub open spec fn wf(self) -> bool {
        &&& self.struct_ok()
        &&& self.libs_ok()
        &&& self.maximal_ok()
        &&& self.hash_ok()
    }

    /// Facts that a well-formed goban offers to its users.
    pub proof fn lemma_wf(self)
        requires
            self.wf(),
        ensures
            self.size.0 <= 19,
            self.size.1 <= 19,
            0 <= self.area() <= 361,
            self.pos().len() == 361,
            self.hash == pos_hash(self.pos(), 361),
            forall|i: int| 0 <= i < 361 && self.pos()[i] is Some ==> i < self.area(),
            forall|i: int| 0 <= i < 361 ==> (#[trigger] self.pos()[i] is Some) == (self.chain_of(i) is Some),
            forall|i: int| 0 <= i < 361 && #[trigger] self.chain_of(i) is Some ==> self.chain_live(self.chain_of(i).unwrap() as int)
                && self.pos()[i] == Some(self.chain(self.chain_of(i).unwrap() as int).color),
            forall|c: int, j: int| #[trigger] self.chain_live(c) && 0 <= j < 384 ==> (#[trigger] lib_has(self.chain(c).liberties, j) == (0 <= j < self.area()
                && self.pos()[j] is None && exists|i: int| #[trigger] self.chain_of(i) == Some(c as u16) && adjacent(self.size, j, i))),
            forall|i: int, j: int| 0 <= i < 361 && 0 <= j < 361 && adjacent(self.size, i, j) && #[trigger] self.pos()[i] is Some
                && self.pos()[i] == #[trigger] self.pos()[j] ==> self.chain_of(i) == self.chain_of(j),
    {
        lemma_area(self.size);
        assert forall|i: int| 0 <= i < 361 && #[trigger] self.chain_of(i) is Some implies self.chain_live(self.chain_of(i).unwrap() as int)
                && self.pos()[i] == Some(self.chain(self.chain_of(i).unwrap() as int).color) by {
            assert(self.board_entry_ok(i));
        }
        assert forall|c: int, j: int| #[trigger] self.chain_live(c) && 0 <= j < 384 implies (#[trigger] lib_has(self.chain(c).liberties, j) == (0 <= j < self.area()
                && self.pos()[j] is None && exists|i: int| #[trigger] self.chain_of(i) == Some(c as u16) && adjacent(self.size, j, i))) by {
            assert(lib_has(self.chains[c].unwrap().liberties, j) == self.is_lib(c, j));
            if self.touches(c, j) {
                let d = choose|d: int| 0 <= d < 4 && nb_valid(self.size, j, d) && #[trigger] self.board[nb(self.size, j, d)] == Some(c as u16);
                assert(self.chain_of(nb(self.size, j, d)) == Some(c as u16));
                assert(adjacent(self.size, j, nb(self.size, j, d)));
            }
            if exists|i: int| #[trigger] self.chain_of(i) == Some(c as u16) && adjacent(self.size, j, i) {
                let i = choose|i: int| #[trigger] self.chain_of(i) == Some(c as u16) && adjacent(self.size, j, i);
                let d = choose|d: int| 0 <= d < 4 && nb_valid(self.size, j, d) && #[trigger] nb(self.size, j, d) == i;
                assert(self.board[nb(self.size, j, d)] == Some(c as u16));
            }
        }
        assert forall|i: int, j: int| 0 <= i < 361 && 0 <= j < 361 && adjacent(self.size, i, j) && #[trigger] self.pos()[i] is Some
                && self.pos()[i] == #[trigger] self.pos()[j] implies self.chain_of(i) == self.chain_of(j) by {
            let d = choose|d: int| 0 <= d < 4 && nb_valid(self.size, i, d) && #[trigger] nb(self.size, i, d) == j;
            assert(nb_valid(self.size, i, d));
        }
    }
}

impl Goban {
    /// Creates an empty goban of `(height, width)`, each at most 19.
    pub fn new(size: Size) -> (r: Self)
        requires
            size.0 <= 19,
            size.1 <= 19,
        ensures
            r@.wf(),
            r@.size == size,
            forall|i: int| 0 <= i < 361 ==> #[trigger] r@.pos()[i] is None,
            r@.chains.len() == 0,
            r@.hash == 0,
    {
        let mut board: Vec<Option<u16>> = Vec::new();
        let mut next_stone: Vec<u16> = Vec::new();
        let mut i: usize = 0;
        while i < BOARD_MAX_LENGTH
            invariant
                0 <= i <= 361,
                board@.len() == i,
                next_stone@.len() == i,
                forall|j: int| 0 <= j < i ==> #[trigger] board@[j] is None,
            decreases 361 - i,
        {
            board.push(None);
            next_stone.push(0);
            i += 1;
        }
        let g = Goban {
            chains: Vec::new(),
            board,
            next_stone,
            size,
            zobrist_hash: 0,
            members: Ghost(Seq::empty()),
        };
        proof {
            lemma_area(size);
            lemma_pos_hash_empty(g@.pos(), 361);
            assert(g@.maximal_ok()) by {
                assert forall|i: int, d: int| 0 <= d < 4 && #[trigger] nb_valid(g@.size, i, d) implies !(g@.board[i] is Some) by {
                    assert(0 <= i < 361);
                }
            }
        }
        g
    }

    /// The size `(height, width)`.
    pub fn size(&self) -> (r: Size)
        ensures
            r == self@.size,
    {
        self.size
    }

    /// The Zobrist hash of the position.
    pub fn zobrist_hash(&self) -> (r: u64)
        ensures
            r == self@.hash,
    {
        self.zobrist_hash
    }

    /// A copy of this goban.
    pub fn clone(&self) -> (r: Goban)
        ensures
            r@ == self@,
    {
        let mut chains: Vec<Option<Chain>> = Vec::new();
        let mut k: usize = 0;
        while k < self.chains.len()
            invariant
                0 <= k <= self.chains@.len(),
                chains@ == self.chains@.subrange(0, k as int),
            decreases self.chains@.len() - k,
        {
            chains.push(self.chains[k]);
            k += 1;
        }
        let mut board: Vec<Option<u16>> = Vec::new();
        let mut k: usize = 0;
        while k < self.board.len()
            invariant
                0 <= k <= self.board@.len(),
                board@ == self.board@.subrange(0, k as int),
            decreases self.board@.len() - k,
        {
            board.push(self.board[k]);
            k += 1;
        }
        let mut next_stone: Vec<u16> = Vec::new();
        let mut k: usize = 0;
        while k < self.next_stone.len()
            invariant
                0 <= k <= self.next_stone@.len(),
                next_stone@ == self.next_stone@.subrange(0, k as int),
            decreases self.next_stone@.len() - k,
        {
            next_stone.push(self.next_stone[k]);
            k += 1;
        }
        assert(chains@ == self.chains@);
        assert(board@ == self.board@);
        assert(next_stone@ == self.next_stone@);
        let r = Goban {
            chains,
            board,
            next_stone,
            size: self.size,
            zobrist_hash: self.zobrist_hash,
            members: Ghost(self.members@),
        };
        r
    }

    /// The content of the point at `coord`.
    pub fn get_color(&self, coord: Coord) -> (r: MaybeColor)
        requires
            self@.wf(),
            spec_coord_valid(self@.size, coord),
        ensures
            r == self@.pos()[spec_idx(self@.size, coord)],
    {
        proof {
            lemma_idx(self.size, coord.0 as int, coord.1 as int);
            lemma_area(self.size);
        }
        let idx = two_to_1dim(self.size, coord);
        self.get_color_idx(idx)
    }

    /// The content of the point at board index `idx`.
    pub fn get_color_idx(&self, idx: BoardIdx) -> (r: MaybeColor)
        requires
            self@.wf(),
            idx < 361,
        ensures
            r == self@.pos()[idx as int],
    {
        match self.board[idx] {
            Some(c) => {
                assert(self@.board_entry_ok(idx as int));
                Some(self.chains[c as usize].unwrap().color)
            },
            None => None,
        }
    }

    /// Puts `chain` in the first free slot of the table, or at its end.
    fn create_chain(&mut self, origin: BoardIdx, color: Color, liberties: &[BoardIdx]) -> (r: GroupIdx)
        requires
            old(self)@.struct_ok(),
            origin < area(old(self)@.size),
            old(self)@.board[origin as int] is None,
            forall|k: int| 0 <= k < liberties@.len() ==> #[trigger] liberties@[k] < 384,
        ensures
            final(self)@.struct_ok(),
            final(self)@.size == old(self)@.size,
            final(self)@.hash == old(self)@.hash,
            0 <= r < final(self)@.chains.len(),
            r < old(self)@.chains.len() ==> old(self)@.chains[r as int] is None,
            final(self)@.chains.len() == old(self)@.chains.len() || (r == old(self)@.chains.len() && final(self)@.chains.len() == r + 1),
            final(self)@.chains[r as int] is Some,
            final(self)@.chains[r as int].unwrap().color == color,
            final(self)@.chains[r as int].unwrap().num_stones == 1,
            forall|j: int| 0 <= j < 384 ==> #[trigger] lib_has(final(self)@.chains[r as int].unwrap().liberties, j) == liberties@.contains(j as usize),
            final(self)@.members[r as int] == seq![origin as int],
            final(self)@.board == old(self)@.board.update(origin as int, Some(r as u16)),
            forall|c: int| #![trigger final(self)@.chains[c]] #![trigger final(self)@.members[c]] 0 <= c < old(self)@.chains.len() && c != r ==> final(self)@.chains[c] == old(self)@.chains[c] && final(self)@.members[c] == old(self)@.members[c],
    {
        proof {
            lemma_area(self@.size);
        }
        let lib_bitset = liberties_from_slice(liberties);
        let chain_to_place = Chain::new_with_liberties(color, origin, lib_bitset);
        // first free slot
        let mut idx: usize = 0;
        loop
            invariant
                self@ == old(self)@,
                0 <= idx <= self@.chains.len(),
                forall|m: int| 0 <= m < idx ==> #[trigger] self@.chains[m] is Some,
            ensures
                idx < self@.chains.len() ==> self@.chains[idx as int] is None,
            decreases self@.chains.len() - idx,
        {
            if idx == self.chains.len() {
                break;
            }
            if self.chains[idx].is_none() {
                break;
            }
            idx += 1;
        }
        if idx == self.chains.len() {
            proof {
                // all slots hold a chain: their origins are distinct points other than `origin`
                let f = |c: int| self@.members[c][0];
                assert forall|c: int| 0 <= c < idx implies 0 <= #[trigger] f(c) < area(self@.size) && f(c) != origin by {
                    assert(self@.chain_list_ok(c));
                    assert(self@.board[self@.members[c][0]] == Some(c as u16));
                }
                assert forall|a: int, b: int| 0 <= a < idx && 0 <= b < idx && a != b implies #[trigger] f(a) != #[trigger] f(b) by {
                    assert(self@.chain_list_ok(a));
                    assert(self@.chain_list_ok(b));
                    assert(self@.board[self@.members[a][0]] == Some(a as u16));
                    assert(self@.board[self@.members[b][0]] == Some(b as u16));
                }
                lemma_pigeonhole(f, idx as int, area(self@.size), origin as int);
            }
            self.chains.push(Some(chain_to_place));
            self.members = Ghost(self.members@.push(seq![origin as int]));
        } else {
            self.chains.set(idx, Some(chain_to_place));
            self.members = Ghost(self.members@.update(idx as int, seq![origin as int]));
        }
        self.next_stone.set(origin, origin as u16);
        self.board.set(origin, Some(idx as u16));
        proof {
            let l = self@.members[idx as int];
            assert(self@.chain_list_ok(idx as int)) by {
                assert(l.no_duplicates());
            }
            assert forall|c: int| 0 <= c < self@.chains.len() && #[trigger] self@.chains[c] is Some implies self@.chain_list_ok(c) by {
                if c != idx {
                    let lc = self@.members[c];
                    assert(old(self)@.chain_list_ok(c));
                    assert forall|k: int| 0 <= k < lc.len() implies {
                        &&& 0 <= #[trigger] lc[k] < area(self@.size)
                        &&& self@.board[lc[k]] == Some(c as u16)
                        &&& self@.next_stone[lc[k]] as int == succ(lc, k)
                    } by {
                        assert(old(self)@.board[lc[k]] == Some(c as u16));
                    }
                }
            }
            assert forall|i: int| 0 <= i < 361 && #[trigger] self@.board[i] is Some implies self@.board_entry_ok(i) by {
                if i != origin {
                    assert(old(self)@.board_entry_ok(i));
                } else {
                    assert(self@.members[idx as int][0] == origin);
                }
            }
        }
        idx
    }
}


/// A list of distinct points of `0..m` that misses `hole` has fewer than `m` items.
proof fn lemma_list_bound(l: Seq<int>, m: int, hole: int)
    requires
        l.no_duplicates(),
        forall|k: int| 0 <= k < l.len() ==> 0 <= #[trigger] l[k] < m && l[k] != hole,
        0 <= hole < m,
    ensures
        l.len() < m,
{
    let f = |k: int| l[k];
    assert forall|a: int, b: int| 0 <= a < l.len() && 0 <= b < l.len() && a != b implies #[trigger] f(a) != #[trigger] f(b) by {}
    lemma_pigeonhole(f, l.len() as int, m, hole);
}

impl Goban {
    /// Adds a stone to chain `group_idx`: the stone becomes the origin of the circular list
    /// when its index is lower, its last stone otherwise.
    fn add_stone_to_chain(&mut self, group_idx: GroupIdx, stone: BoardIdx)
        requires
            old(self)@.struct_ok(),
            old(self)@.chain_live(group_idx as int),
            stone < area(old(self)@.size),
            old(self)@.board[stone as int] is None,
        ensures
            final(self)@.struct_ok(),
            final(self)@.size == old(self)@.size,
            final(self)@.hash == old(self)@.hash,
            final(self)@.chains.len() == old(self)@.chains.len(),
            final(self)@.chain_live(group_idx as int),
            final(self)@.chain(group_idx as int).color == old(self)@.chain(group_idx as int).color,
            final(self)@.chain(group_idx as int).liberties == old(self)@.chain(group_idx as int).liberties,
            final(self)@.chain(group_idx as int).num_stones == old(self)@.chain(group_idx as int).num_stones + 1,
            final(self)@.members[group_idx as int] == (if (stone as int) < old(self)@.chain(group_idx as int).origin {
                seq![stone as int] + old(self)@.members[group_idx as int]
            } else {
                old(self)@.members[group_idx as int].push(stone as int)
            }),
            final(self)@.board == old(self)@.board.update(stone as int, Some(group_idx as u16)),
            forall|c: int| #![trigger final(self)@.chains[c]] #![trigger final(self)@.members[c]] 0 <= c < old(self)@.chains.len() && c != group_idx ==> final(self)@.chains[c] == old(self)@.chains[c] && final(self)@.members[c] == old(self)@.members[c],
    {
        let ghost v0 = self@;
        let ghost l = v0.members[group_idx as int];
        proof {
            lemma_area(v0.size);
            assert(v0.chain_list_ok(group_idx as int));
            assert forall|k: int| 0 <= k < l.len() implies 0 <= #[trigger] l[k] < area(v0.size) && l[k] != stone as int by {
                assert(v0.board[l[k]] == Some(group_idx as u16));
            }
            lemma_list_bound(l, area(v0.size), stone as int);
        }
        let mut group = self.chains[group_idx].unwrap();
        let ghost nl: Seq<int>;
        if stone < group.origin as usize {
            self.next_stone.set(stone, group.origin);
            self.next_stone.set(group.last as usize, stone as u16);
            group.origin = stone as u16;
            proof {
                nl = seq![stone as int] + l;
            }
        } else {
            self.next_stone.set(group.last as usize, stone as u16);
            self.next_stone.set(stone, group.origin);
            group.last = stone as u16;
            proof {
                nl = l.push(stone as int);
            }
        }
        group.num_stones = group.num_stones + 1;
        self.chains.set(group_idx, Some(group));
        self.board.set(stone, Some(group_idx as u16));
        self.members = Ghost(self.members@.update(group_idx as int, nl));
        proof {
            let v = self@;
            let g = group_idx as int;
            assert(v.members[g] == nl);
            assert(nl.no_duplicates()) by {
                assert forall|a: int, b: int| 0 <= a < b < nl.len() implies nl[a] != nl[b] by {
                    if (stone as int) < v0.chain(g).origin {
                        if a == 0 {
                            assert(nl[b] == l[b - 1]);
                            assert(v0.board[l[b - 1]] == Some(group_idx as u16));
                        } else {
                            assert(nl[a] == l[a - 1] && nl[b] == l[b - 1]);
                        }
                    } else {
                        if b == l.len() {
                            assert(v0.board[l[a]] == Some(group_idx as u16));
                        }
                    }
                }
            }
            assert forall|k: int| 0 <= k < nl.len() implies {
                &&& 0 <= #[trigger] nl[k] < area(v.size)
                &&& v.board[nl[k]] == Some(g as u16)
                &&& v.next_stone[nl[k]] as int == succ(nl, k)
            } by {
                if (stone as int) < v0.chain(g).origin {
                    if k > 0 {
                        assert(nl[k] == l[k - 1]);
                        assert(v0.board[l[k - 1]] == Some(group_idx as u16));
                        if k - 1 + 1 < l.len() {
                            assert(nl[k] != stone as int);
                            assert(nl[k] != v0.chain(g).last as int || k == l.len());
                        }
                    }
                } else {
                    if k < l.len() {
                        assert(nl[k] == l[k]);
                        assert(v0.board[l[k]] == Some(group_idx as u16));
                    }
                }
            }
            assert(v.chain_list_ok(g));
            assert forall|c: int| 0 <= c < v.chains.len() && #[trigger] v.chains[c] is Some implies v.chain_list_ok(c) by {
                if c != g {
                    assert(v0.chain_list_ok(c));
                    let lc = v0.members[c];
                    assert forall|k: int| 0 <= k < lc.len() implies {
                        &&& 0 <= #[trigger] lc[k] < area(v.size)
                        &&& v.board[lc[k]] == Some(c as u16)
                        &&& v.next_stone[lc[k]] as int == succ(lc, k)
                    } by {
                        assert(v0.board[lc[k]] == Some(c as u16));
                        assert(v0.board[v0.chain(g).last as int] == Some(g as u16));
                    }
                }
            }
            assert forall|i: int| 0 <= i < 361 && #[trigger] v.board[i] is Some implies v.board_entry_ok(i) by {
                if i != stone as int {
                    assert(v0.board_entry_ok(i));
                    if v0.board[i].unwrap() as int == g {
                        let k = choose|k: int| 0 <= k < l.len() && l[k] == i;
                        if (stone as int) < v0.chain(g).origin {
                            assert(nl[k + 1] == i);
                        } else {
                            assert(nl[k] == i);
                        }
                    }
                } else {
                    if (stone as int) < v0.chain(g).origin {
                        assert(nl[0] == i);
                    } else {
                        assert(nl[l.len() as int] == i);
                    }
                }
            }
        }
    }
}


/// True when `x` is one of the first `k` items of `l`.
pub open spec fn prefix_has(l: Seq<int>, k: int, x: int) -> bool {
    exists|m: int| 0 <= m < k && #[trigger] l[m] == x
}

/// The list obtained by joining the lists of two chains, lower origin first.
pub open spec fn joined(v: GobanView, g1: int, g2: int) -> Seq<int> {
    if v.chain(g1).origin > v.chain(g2).origin {
        v.members[g2] + v.members[g1]
    } else {
        v.members[g1] + v.members[g2]
    }
}

/// The joined list holds distinct points of the two chains, and no more than the board.
proof fn lemma_joined(v: GobanView, g1: int, g2: int)
    requires
        v.struct_ok(),
        v.chain_live(g1),
        v.chain_live(g2),
        g1 != g2,
    ensures
        joined(v, g1, g2).no_duplicates(),
        joined(v, g1, g2).len() == v.members[g1].len() + v.members[g2].len(),
        joined(v, g1, g2).len() <= area(v.size),
        area(v.size) <= 361,
        forall|k: int| 0 <= k < joined(v, g1, g2).len() ==> 0 <= #[trigger] joined(v, g1, g2)[k] < area(v.size)
            && (v.board[joined(v, g1, g2)[k]] == Some(g1 as u16) || v.board[joined(v, g1, g2)[k]] == Some(g2 as u16)),
        forall|i: int| 0 <= i < 361 && (v.board[i] == Some(g1 as u16) || v.board[i] == Some(g2 as u16)) ==> #[trigger] joined(v, g1, g2).contains(i),
{
    lemma_area(v.size);
    let l1 = v.members[g1];
    let l2 = v.members[g2];
    let nl = joined(v, g1, g2);
    assert(v.chain_list_ok(g1));
    assert(v.chain_list_ok(g2));
    let (a0, b0) = if v.chain(g1).origin > v.chain(g2).origin { (l2, l1) } else { (l1, l2) };
    let (ga, gb) = if v.chain(g1).origin > v.chain(g2).origin { (g2, g1) } else { (g1, g2) };
    assert(nl == a0 + b0);
    assert(v.chain_list_ok(ga) && v.chain_list_ok(gb));
    assert forall|k: int| 0 <= k < nl.len() implies 0 <= #[trigger] nl[k] < area(v.size)
        && (v.board[nl[k]] == Some(g1 as u16) || v.board[nl[k]] == Some(g2 as u16)) by {
        if k < a0.len() { assert(nl[k] == a0[k]); } else { assert(nl[k] == b0[k - a0.len()]); }
    }
    assert forall|a: int, b: int| 0 <= a < b < nl.len() implies nl[a] != nl[b] by {
        if a < a0.len() && b >= a0.len() {
            assert(v.board[a0[a]] == Some(ga as u16));
            assert(v.board[b0[b - a0.len()]] == Some(gb as u16));
        } else if a >= a0.len() {
            assert(nl[a] == b0[a - a0.len()] && nl[b] == b0[b - a0.len()]);
        } else {
            assert(nl[a] == a0[a] && nl[b] == a0[b]);
        }
    }
    assert forall|i: int| 0 <= i < 361 && (v.board[i] == Some(g1 as u16) || v.board[i] == Some(g2 as u16)) implies #[trigger] nl.contains(i) by {
        assert(v.board_entry_ok(i));
        if v.board[i] == Some(ga as u16) {
            let m = choose|m: int| 0 <= m < a0.len() && a0[m] == i;
            assert(nl[m] == i);
        } else {
            let m = choose|m: int| 0 <= m < b0.len() && b0[m] == i;
            assert(nl[m + a0.len()] == i);
        }
    }
    lemma_list_bound(nl, area(v.size) + 1, area(v.size));
}

/// After swapping the successors of the two last stones, the joined list is circular.
#[verifier::spinoff_prover]
#[verifier::rlimit(50)]
proof fn lemma_joined_next(v: GobanView, g1: int, g2: int, next: Seq<u16>)
    requires
        v.struct_ok(),
        v.chain_live(g1),
        v.chain_live(g2),
        g1 != g2,
        next == v.next_stone.update(v.chain(g1).last as int, v.next_stone[v.chain(g2).last as int]).update(
            v.chain(g2).last as int, v.next_stone[v.chain(g1).last as int]),
    ensures
        forall|k: int| 0 <= k < joined(v, g1, g2).len() ==> next[#[trigger] joined(v, g1, g2)[k]] as int == succ(joined(v, g1, g2), k),
{
    let l1 = v.members[g1];
    let l2 = v.members[g2];
    let nl = joined(v, g1, g2);
    assert(v.chain_list_ok(g1));
    assert(v.chain_list_ok(g2));
    let (a0, b0) = if v.chain(g1).origin > v.chain(g2).origin { (l2, l1) } else { (l1, l2) };
    let (ga, gb) = if v.chain(g1).origin > v.chain(g2).origin { (g2, g1) } else { (g1, g2) };
    assert(v.chain_list_ok(ga) && v.chain_list_ok(gb));
    assert(nl == a0 + b0);
    let la = v.chain(ga).last as int;
    let lb = v.chain(gb).last as int;
    assert(la == a0[a0.len() - 1] && lb == b0[b0.len() - 1]);
    assert(la != lb) by {
        assert(v.board[la] == Some(ga as u16));
        assert(v.board[lb] == Some(gb as u16));
    }
    let last1 = v.chain(g1).last as int;
    let last2 = v.chain(g2).last as int;
    lemma_area(v.size);
    assert(0 <= last1 < 361 && 0 <= last2 < 361 && last1 != last2);
    assert(v.next_stone[last1] as int == succ(l1, l1.len() - 1));
    assert(v.next_stone[last2] as int == succ(l2, l2.len() - 1));
    assert(next[last1] as int == l2[0]);
    assert(next[last2] as int == l1[0]);
    assert(next[la] as int == b0[0]);
    assert(next[lb] as int == a0[0]);
    assert forall|k: int| 0 <= k < nl.len() implies next[#[trigger] nl[k]] as int == succ(nl, k) by {
        if k < a0.len() {
            assert(nl[k] == a0[k]);
            if k + 1 < a0.len() {
                assert(nl[k + 1] == a0[k + 1]);
                assert(a0[k] != la);
                assert(a0[k] != lb) by {
                    assert(v.board[a0[k]] == Some(ga as u16));
                    assert(v.board[lb] == Some(gb as u16));
                }
            } else {
                assert(nl[k + 1] == b0[0]);
            }
        } else {
            let kk = k - a0.len();
            assert(nl[k] == b0[kk]);
            if kk + 1 < b0.len() {
                assert(nl[k + 1] == b0[kk + 1]);
                assert(b0[kk] != lb);
                assert(b0[kk] != la) by {
                    assert(v.board[b0[kk]] == Some(gb as u16));
                    assert(v.board[la] == Some(ga as u16));
                }
            }
        }
    }
}

/// The merged goban is structurally sound.
proof fn lemma_joined_struct(v0: GobanView, v: GobanView, g1: int, g2: int)
    requires
        v0.struct_ok(),
        v0.chain_live(g1),
        v0.chain_live(g2),
        g1 != g2,
        v.size == v0.size,
        v.chains.len() == v0.chains.len(),
        v.members == v0.members.update(g1, joined(v0, g1, g2)),
        v.chains[g2] is None,
        v.chain_live(g1),
        v.chain(g1).num_stones == joined(v0, g1, g2).len(),
        v.chain(g1).origin as int == joined(v0, g1, g2)[0],
        v.chain(g1).last as int == joined(v0, g1, g2)[joined(v0, g1, g2).len() - 1],
        forall|c: int| 0 <= c < v0.chains.len() && c != g1 && c != g2 ==> v.chains[c] == v0.chains[c],
        v.board.len() == 361,
        v.next_stone.len() == 361,
        forall|i: int| 0 <= i < 361 ==> #[trigger] v.board[i] == (if v0.board[i] == Some(g2 as u16) {
            Some(g1 as u16)
        } else {
            v0.board[i]
        }),
        forall|k: int| 0 <= k < joined(v0, g1, g2).len() ==> v.next_stone[#[trigger] joined(v0, g1, g2)[k]] as int == succ(joined(v0, g1, g2), k),
        forall|i: int| 0 <= i < 361 && v.next_stone[i] != v0.next_stone[i] ==> (v0.board[i] == Some(g1 as u16) || v0.board[i] == Some(g2 as u16)),
    ensures
        v.struct_ok(),
{
    lemma_joined(v0, g1, g2);
    let nl = joined(v0, g1, g2);
    assert(v.chain_list_ok(g1)) by {
        assert forall|k: int| 0 <= k < nl.len() implies v.board[#[trigger] nl[k]] == Some(g1 as u16) by {}
    }
    assert forall|c: int| 0 <= c < v.chains.len() && #[trigger] v.chains[c] is Some implies v.chain_list_ok(c) by {
        if c != g1 {
            assert(v0.chain_list_ok(c));
            let lc = v0.members[c];
            assert forall|m: int| 0 <= m < lc.len() implies {
                &&& 0 <= #[trigger] lc[m] < area(v.size)
                &&& v.board[lc[m]] == Some(c as u16)
                &&& v.next_stone[lc[m]] as int == succ(lc, m)
            } by {
                assert(v0.board[lc[m]] == Some(c as u16));
            }
        }
    }
    assert forall|i: int| 0 <= i < 361 && #[trigger] v.board[i] is Some implies v.board_entry_ok(i) by {
        assert(v0.board_entry_ok(i));
    }
}

impl Goban {
    /// Points the board at chain `chain_idx` on every stone of its circular list.
    #[verifier::spinoff_prover]
    #[verifier::rlimit(40)]
    fn update_chain_indexes_in_board(&mut self, chain_idx: GroupIdx, Ghost(nl): Ghost<Seq<int>>)
        requires
            old(self)@.board.len() == 361,
            old(self)@.next_stone.len() == 361,
            chain_idx < 65536,
            nl.len() >= 1,
            nl.no_duplicates(),
            forall|m: int| 0 <= m < nl.len() ==> 0 <= #[trigger] nl[m] < 361,
            forall|m: int| 0 <= m < nl.len() ==> old(self)@.next_stone[#[trigger] nl[m]] as int == succ(nl, m),
            old(self)@.chain_live(chain_idx as int),
            old(self)@.chain(chain_idx as int).origin as int == nl[0],
        ensures
            final(self)@.chains == old(self)@.chains,
            final(self)@.members == old(self)@.members,
            final(self)@.next_stone == old(self)@.next_stone,
            final(self)@.size == old(self)@.size,
            final(self)@.hash == old(self)@.hash,
            final(self)@.board.len() == 361,
            forall|i: int| 0 <= i < 361 ==> #[trigger] final(self)@.board[i] == (if nl.contains(i) {
                Some(chain_idx as u16)
            } else {
                old(self)@.board[i]
            }),
    {
        let origin = self.chains[chain_idx].unwrap().origin as usize;
        let mut cur: usize = origin;
        let ghost mut k: int = 0;
        loop
            invariant_except_break
                forall|i: int| 0 <= i < 361 ==> #[trigger] self@.board[i] == (if prefix_has(nl, k, i) {
                    Some(chain_idx as u16)
                } else {
                    old(self)@.board[i]
                }),
            invariant
                self@.chains == old(self)@.chains,
                self@.members == old(self)@.members,
                self@.next_stone == old(self)@.next_stone,
                self@.size == old(self)@.size,
                self@.hash == old(self)@.hash,
                self@.board.len() == 361,
                old(self)@.next_stone.len() == 361,
                old(self)@.board.len() == 361,
                0 <= k < nl.len(),
                cur as int == nl[k],
                origin as int == nl[0],
                nl.no_duplicates(),
                forall|m: int| 0 <= m < nl.len() ==> 0 <= #[trigger] nl[m] < 361,
                forall|m: int| 0 <= m < nl.len() ==> old(self)@.next_stone[#[trigger] nl[m]] as int == succ(nl, m),
            ensures
                forall|i: int| 0 <= i < 361 ==> #[trigger] self@.board[i] == (if nl.contains(i) {
                    Some(chain_idx as u16)
                } else {
                    old(self)@.board[i]
                }),
                self@.chains == old(self)@.chains,
                self@.members == old(self)@.members,
                self@.next_stone == old(self)@.next_stone,
                self@.size == old(self)@.size,
                self@.hash == old(self)@.hash,
                self@.board.len() == 361,
            decreases nl.len() - k,
        {
            let ghost b0 = self@.board;
            self.board.set(cur, Some(chain_idx as u16));
            proof {
                assert forall|i: int| 0 <= i < 361 implies #[trigger] self@.board[i] == (if prefix_has(nl, k + 1, i) {
                    Some(chain_idx as u16)
                } else {
                    old(self)@.board[i]
                }) by {
                    if i == cur as int {
                        assert(nl[k] == i);
                    } else {
                        assert(self@.board[i] == b0[i]);
                        if prefix_has(nl, k + 1, i) {
                            let m = choose|m: int| 0 <= m < k + 1 && #[trigger] nl[m] == i;
                            assert(prefix_has(nl, k, i));
                        }
                        if prefix_has(nl, k, i) {
                            let m = choose|m: int| 0 <= m < k && #[trigger] nl[m] == i;
                            assert(prefix_has(nl, k + 1, i));
                        }
                    }
                }
            }
            let nxt = self.next_stone[cur] as usize;
            if nxt == origin {
                proof {
                    assert(succ(nl, k) == nl[0]);
                    if k + 1 < nl.len() {
                        assert(nl[k + 1] == nl[0]);
                    }
                    assert forall|i: int| 0 <= i < 361 implies #[trigger] self@.board[i] == (if nl.contains(i) {
                        Some(chain_idx as u16)
                    } else {
                        old(self)@.board[i]
                    }) by {
                        if nl.contains(i) {
                            let m = choose|m: int| 0 <= m < nl.len() && nl[m] == i;
                            assert(prefix_has(nl, k + 1, i));
                        }
                        if prefix_has(nl, k + 1, i) {
                            let m = choose|m: int| 0 <= m < k + 1 && #[trigger] nl[m] == i;
                            assert(nl.contains(i));
                        }
                    }
                }
                break;
            }
            proof {
                if k + 1 == nl.len() {
                    assert(succ(nl, k) == nl[0]);
                }
                k = k + 1;
            }
            cur = nxt;
        }
    }

    /// Merges chain `group2_idx` into chain `group1_idx` (same color): liberties are united,
    /// the circular lists are joined with the lower origin first, the board points to the
    /// merged chain and slot `group2_idx` is freed.
    fn merge_strings(&mut self, group1_idx: GroupIdx, group2_idx: GroupIdx)
        requires
            old(self)@.struct_ok(),
            old(self)@.chain_live(group1_idx as int),
            old(self)@.chain_live(group2_idx as int),
            group1_idx != group2_idx,
            old(self)@.chain(group1_idx as int).color == old(self)@.chain(group2_idx as int).color,
        ensures
            final(self)@.struct_ok(),
            final(self)@.size == old(self)@.size,
            final(self)@.hash == old(self)@.hash,
            final(self)@.chains.len() == old(self)@.chains.len(),
            final(self)@.chain_live(group1_idx as int),
            final(self)@.chains[group2_idx as int] is None,
            final(self)@.chain(group1_idx as int).color == old(self)@.chain(group1_idx as int).color,
            forall|j: int| 0 <= j < 384 ==> #[trigger] lib_has(final(self)@.chain(group1_idx as int).liberties, j) == (lib_has(
                old(self)@.chain(group1_idx as int).liberties, j) || lib_has(old(self)@.chain(group2_idx as int).liberties, j)),
            final(self)@.chain(group1_idx as int).num_stones == old(self)@.chain(group1_idx as int).num_stones + old(self)@.chain(group2_idx as int).num_stones,
            final(self)@.members[group1_idx as int] == joined(old(self)@, group1_idx as int, group2_idx as int),
            forall|i: int| 0 <= i < 361 ==> #[trigger] final(self)@.board[i] == (if old(self)@.board[i] == Some(group2_idx as u16) {
                Some(group1_idx as u16)
            } else {
                old(self)@.board[i]
            }),
            forall|c: int| #![trigger final(self)@.chains[c]] #![trigger final(self)@.members[c]] 0 <= c < old(self)@.chains.len() && c != group1_idx && c != group2_idx ==> final(self)@.chains[c] == old(self)@.chains[c] && final(self)@.members[c] == old(self)@.members[c],
    {
        let ghost v0 = self@;
        let ghost g1 = group1_idx as int;
        let ghost g2 = group2_idx as int;
        let ghost nl = joined(v0, g1, g2);
        proof {
            lemma_joined(v0, g1, g2);
            assert(v0.chain_list_ok(g1));
            assert(v0.chain_list_ok(g2));
        }
        let c1 = self.chains[group1_idx].unwrap();
        let c2 = self.chains[group2_idx].unwrap();
        let mut merged = c1;
        merge(&mut merged.liberties, &c2.liberties);
        if c1.origin > c2.origin {
            merged.origin = c2.origin;
        } else {
            merged.last = c2.last;
        }
        let n1 = self.next_stone[c1.last as usize];
        let n2 = self.next_stone[c2.last as usize];
        self.next_stone.set(c1.last as usize, n2);
        self.next_stone.set(c2.last as usize, n1);
        merged.num_stones = c1.num_stones + c2.num_stones;
        self.chains.set(group1_idx, Some(merged));
        self.chains.set(group2_idx, None);
        self.members = Ghost(self.members@.update(g1, nl));
        proof {
            lemma_joined_next(v0, g1, g2, self@.next_stone);
        }
        self.update_chain_indexes_in_board(group1_idx, Ghost(nl));
        proof {
            let v = self@;
            assert forall|i: int| 0 <= i < 361 implies #[trigger] v.board[i] == (if v0.board[i] == Some(g2 as u16) {
                Some(g1 as u16)
            } else {
                v0.board[i]
            }) by {
                if nl.contains(i) {
                    let m = choose|m: int| 0 <= m < nl.len() && nl[m] == i;
                    assert(v0.board[nl[m]] == Some(g1 as u16) || v0.board[nl[m]] == Some(g2 as u16));
                }
                if v0.board[i] == Some(g1 as u16) || v0.board[i] == Some(g2 as u16) {
                    assert(nl.contains(i));
                }
            }
            assert forall|i: int| 0 <= i < 361 && v.next_stone[i] != v0.next_stone[i] implies (v0.board[i] == Some(g1 as u16) || v0.board[i] == Some(g2 as u16)) by {
                let l1 = v0.members[g1];
                let l2 = v0.members[g2];
                assert(v0.board[l1[l1.len() - 1]] == Some(g1 as u16));
                assert(v0.board[l2[l2.len() - 1]] == Some(g2 as u16));
            }
            lemma_joined_struct(v0, v, g1, g2);
        }
    }
}


/// A board entry after the chains listed in `s` were merged into chain `r`.
pub open spec fn relabel(b: Option<u16>, s: Seq<usize>, r: int) -> Option<u16> {
    match b {
        Some(c) => if s.contains(c as usize) {
            Some(r as u16)
        } else {
            b
        },
        None => None,
    }
}

/// The neighbors of `p` are sorted: the chains of color `color` that touch `p` are those of
/// `same`, the other chains that touch it are those of `oth`, and `libs` lists the empty
/// neighbors.
pub open spec fn classified(v: GobanView, p: int, color: Color, same: Seq<usize>, oth: Seq<usize>, libs: Seq<usize>) -> bool {
    &&& same.no_duplicates()
    &&& oth.no_duplicates()
    &&& libs.no_duplicates()
    &&& forall|m: int| 0 <= m < same.len() ==> v.chain_live(#[trigger] same[m] as int) && v.chain(same[m] as int).color == color
        && v.touches(same[m] as int, p)
    &&& forall|m: int| 0 <= m < oth.len() ==> v.chain_live(#[trigger] oth[m] as int) && v.chain(oth[m] as int).color != color
        && v.touches(oth[m] as int, p)
    &&& forall|d: int| 0 <= d < 4 && #[trigger] nb_valid(v.size, p, d) && v.board[nb(v.size, p, d)] is Some ==> (if v.color_at(nb(v.size, p, d)) == Some(color) {
        same.contains(v.board[nb(v.size, p, d)].unwrap() as usize)
    } else {
        oth.contains(v.board[nb(v.size, p, d)].unwrap() as usize)
    })
    &&& forall|j: int| 0 <= j < 384 ==> #[trigger] libs.contains(j as usize) == (adjacent(v.size, p, j) && v.board[j] is None)
    &&& forall|k: int| 0 <= k < libs.len() ==> #[trigger] libs[k] < 384
}

/// The liberties of the chain that holds a new stone at `p`: the empty neighbors of `p` and
/// the liberties of the chains in `same`, but `p` itself.
pub open spec fn merged_lib(v: GobanView, p: int, same: Seq<usize>, libs: Seq<usize>, j: int) -> bool {
    j != p && (libs.contains(j as usize) || exists|m: int| 0 <= m < same.len() && #[trigger] lib_has(v.chain(same[m] as int).liberties, j))
}

/// The goban `vf` is `v0` with a stone of `color` at `p`: the chains of `same` and the new
/// stone form chain `r`, the chains of `oth` lost the liberty `p`, the others are unchanged.
pub open spec fn pushed(v0: GobanView, vf: GobanView, p: int, color: Color, same: Seq<usize>, oth: Seq<usize>, libs: Seq<usize>, r: int) -> bool {
    &&& vf.struct_ok()
    &&& vf.size == v0.size
    &&& vf.board[p] == Some(r as u16)
    &&& forall|i: int| 0 <= i < 361 && i != p ==> #[trigger] vf.board[i] == relabel(v0.board[i], same, r)
    &&& vf.chain_live(r)
    &&& vf.chain(r).color == color
    &&& forall|j: int| 0 <= j < 384 ==> #[trigger] lib_has(vf.chain(r).liberties, j) == merged_lib(v0, p, same, libs, j)
    &&& forall|c: int| 0 <= c < vf.chains.len() && c != r && #[trigger] vf.chains[c] is Some ==> {
        &&& v0.chain_live(c)
        &&& !same.contains(c as usize)
        &&& vf.chain(c).color == v0.chain(c).color
        &&& forall|j: int| 0 <= j < 384 ==> #[trigger] lib_has(vf.chain(c).liberties, j) == (lib_has(v0.chain(c).liberties, j) && !(j == p
            && oth.contains(c as usize)))
    }
    &&& same.contains(r as usize) || !v0.chain_live(r)
}

/// The chain that holds the new stone has exactly its liberties at `j`.
proof fn lemma_push_lib_new(v0: GobanView, vf: GobanView, p: int, color: Color, same: Seq<usize>, oth: Seq<usize>, libs: Seq<usize>, r: int, j: int)
    requires
        v0.wf(),
        0 <= p < v0.area(),
        v0.board[p] is None,
        classified(v0, p, color, same, oth, libs),
        pushed(v0, vf, p, color, same, oth, libs, r),
        0 <= j < 384,
    ensures
        lib_has(vf.chains[r].unwrap().liberties, j) == vf.is_lib(r, j),
{
    lemma_area(v0.size);
    if j != p && 0 <= j < 361 {
        if vf.touches(r, j) && vf.board[j] is None && j < vf.area() {
            let d = choose|d: int| 0 <= d < 4 && nb_valid(vf.size, j, d) && #[trigger] vf.board[nb(vf.size, j, d)] == Some(r as u16);
            let x = nb(vf.size, j, d);
            lemma_nb(vf.size, j, d);
            if x == p {
                assert(adjacent(v0.size, p, j)) by {
                    assert(nb(v0.size, x, opp(d)) == j);
                }
                assert(libs.contains(j as usize));
            } else {
                assert(vf.board[x] == relabel(v0.board[x], same, r));
                assert(v0.board[x] is Some);
                let c0 = v0.board[x].unwrap();
                if !same.contains(c0 as usize) {
                    assert(v0.board_entry_ok(x));
                    assert(false);
                }
                let m = choose|m: int| 0 <= m < same.len() && same[m] == c0 as usize;
                assert(v0.touches(same[m] as int, j));
                assert(v0.chain_live(same[m] as int));
                assert(lib_has(v0.chains[same[m] as int].unwrap().liberties, j) == v0.is_lib(same[m] as int, j));
                assert(lib_has(v0.chain(same[m] as int).liberties, j));
            }
        }
        if merged_lib(v0, p, same, libs, j) {
            if libs.contains(j as usize) {
                let d = choose|d: int| 0 <= d < 4 && nb_valid(v0.size, p, d) && #[trigger] nb(v0.size, p, d) == j;
                lemma_nb(v0.size, p, d);
                assert(vf.board[nb(vf.size, j, opp(d))] == Some(r as u16));
            } else {
                let m = choose|m: int| 0 <= m < same.len() && #[trigger] lib_has(v0.chain(same[m] as int).liberties, j);
                assert(v0.chain_live(same[m] as int));
                assert(lib_has(v0.chains[same[m] as int].unwrap().liberties, j) == v0.is_lib(same[m] as int, j));
                let d = choose|d: int| 0 <= d < 4 && nb_valid(v0.size, j, d) && #[trigger] v0.board[nb(v0.size, j, d)] == Some(same[m] as u16);
                lemma_nb(v0.size, j, d);
                assert(vf.board[nb(vf.size, j, d)] == relabel(v0.board[nb(v0.size, j, d)], same, r));
                assert(same.contains(same[m]));
            }
        }
        assert(vf.board[j] == relabel(v0.board[j], same, r));
    } else if j >= 361 {
        if libs.contains(j as usize) {
            let d = choose|d: int| 0 <= d < 4 && nb_valid(v0.size, p, d) && #[trigger] nb(v0.size, p, d) == j;
            lemma_nb(v0.size, p, d);
        }
        if exists|m: int| 0 <= m < same.len() && #[trigger] lib_has(v0.chain(same[m] as int).liberties, j) {
            let m = choose|m: int| 0 <= m < same.len() && #[trigger] lib_has(v0.chain(same[m] as int).liberties, j);
            assert(v0.chain_live(same[m] as int));
            assert(lib_has(v0.chains[same[m] as int].unwrap().liberties, j) == v0.is_lib(same[m] as int, j));
        }
    }
}

/// A chain other than the new stone's has exactly its liberties at `j`.
proof fn lemma_push_lib_other(v0: GobanView, vf: GobanView, p: int, color: Color, same: Seq<usize>, oth: Seq<usize>, libs: Seq<usize>, r: int, c: int, j: int)
    requires
        v0.wf(),
        0 <= p < v0.area(),
        v0.board[p] is None,
        classified(v0, p, color, same, oth, libs),
        pushed(v0, vf, p, color, same, oth, libs, r),
        0 <= j < 384,
        0 <= c < vf.chains.len(),
        c != r,
        vf.chains[c] is Some,
    ensures
        lib_has(vf.chains[c].unwrap().liberties, j) == vf.is_lib(c, j),
{
    lemma_area(v0.size);
    assert(v0.chain_live(c));
    assert(!same.contains(c as usize));
    assert(lib_has(v0.chains[c].unwrap().liberties, j) == v0.is_lib(c, j));
    if j == p {
        if v0.touches(c, p) {
            let d = choose|d: int| 0 <= d < 4 && nb_valid(v0.size, p, d) && #[trigger] v0.board[nb(v0.size, p, d)] == Some(c as u16);
            lemma_nb(v0.size, p, d);
            assert(v0.board[nb(v0.size, p, d)] is Some);
            assert(v0.board_entry_ok(nb(v0.size, p, d)));
            if v0.color_at(nb(v0.size, p, d)) == Some(color) {
                assert(same.contains(c as usize));
            }
        }
    } else {
        if vf.touches(c, j) {
            let d = choose|d: int| 0 <= d < 4 && nb_valid(vf.size, j, d) && #[trigger] vf.board[nb(vf.size, j, d)] == Some(c as u16);
            lemma_nb(vf.size, j, d);
            let x = nb(vf.size, j, d);
            if x != p {
                assert(vf.board[x] == relabel(v0.board[x], same, r));
                if v0.board[x] is Some && same.contains(v0.board[x].unwrap() as usize) {
                    assert(false);
                }
            }
            assert(v0.board[nb(v0.size, j, d)] == Some(c as u16));
        }
        if v0.touches(c, j) {
            let d = choose|d: int| 0 <= d < 4 && nb_valid(v0.size, j, d) && #[trigger] v0.board[nb(v0.size, j, d)] == Some(c as u16);
            lemma_nb(v0.size, j, d);
            assert(vf.board[nb(vf.size, j, d)] == relabel(v0.board[nb(v0.size, j, d)], same, r));
            assert(vf.board[nb(vf.size, j, d)] == Some(c as u16));
        }
        if 0 <= j < 361 {
            assert(vf.board[j] == relabel(v0.board[j], same, r));
        }
    }
}

/// Each point keeps its content, but `p`, which holds the new stone.
proof fn lemma_push_colors(v0: GobanView, vf: GobanView, p: int, color: Color, same: Seq<usize>, oth: Seq<usize>, libs: Seq<usize>, r: int)
    requires
        v0.wf(),
        0 <= p < v0.area(),
        v0.board[p] is None,
        classified(v0, p, color, same, oth, libs),
        pushed(v0, vf, p, color, same, oth, libs, r),
    ensures
        forall|x: int| 0 <= x < 361 ==> #[trigger] vf.color_at(x) == (if x == p {
            Some(color)
        } else {
            v0.color_at(x)
        }),
        vf.pos() == v0.pos().update(p, Some(color)),
{
    lemma_area(v0.size);
    assert forall|x: int| 0 <= x < 361 implies #[trigger] vf.color_at(x) == (if x == p {
        Some(color)
    } else {
        v0.color_at(x)
    }) by {
        if x != p && v0.board[x] is Some {
            let c0 = v0.board[x].unwrap() as int;
            assert(v0.board_entry_ok(x));
            assert(vf.board[x] == relabel(v0.board[x], same, r));
            if same.contains(c0 as usize) {
                let m = choose|m: int| 0 <= m < same.len() && same[m] == c0 as usize;
                assert(v0.chain_live(same[m] as int));
            } else {
                assert(vf.board[x] == Some(c0 as u16));
                assert(vf.board_entry_ok(x));
                if c0 == r {
                    assert(false);
                }
            }
        } else if x != p {
            assert(vf.board[x] == relabel(v0.board[x], same, r));
        }
    }
    assert(vf.pos() =~= v0.pos().update(p, Some(color)));
}

/// A stone pushed on an empty point leaves a well-formed goban whose position has the new
/// stone and nothing else changed.
proof fn lemma_push_result(v0: GobanView, vf: GobanView, p: int, color: Color, same: Seq<usize>, oth: Seq<usize>, libs: Seq<usize>, r: int)
    requires
        v0.wf(),
        0 <= p < v0.area(),
        v0.board[p] is None,
        classified(v0, p, color, same, oth, libs),
        pushed(v0, vf, p, color, same, oth, libs, r),
    ensures
        vf.libs_ok(),
        vf.maximal_ok(),
        vf.pos() == v0.pos().update(p, Some(color)),
{
    lemma_area(v0.size);
    lemma_push_colors(v0, vf, p, color, same, oth, libs, r);
    assert forall|c: int, j: int| 0 <= c < vf.chains.len() && vf.chains[c] is Some && 0 <= j < 384 implies (#[trigger] lib_has(
        vf.chains[c].unwrap().liberties, j) == #[trigger] vf.is_lib(c, j)) by {
        if c == r {
            lemma_push_lib_new(v0, vf, p, color, same, oth, libs, r, j);
        } else {
            lemma_push_lib_other(v0, vf, p, color, same, oth, libs, r, c, j);
        }
    }
    assert forall|i: int, d: int| 0 <= d < 4 && #[trigger] nb_valid(vf.size, i, d) && vf.board[i] is Some && vf.board[nb(vf.size, i, d)] is Some
            && vf.color_at(i) == vf.color_at(nb(vf.size, i, d)) implies vf.board[i] == vf.board[nb(vf.size, i, d)] by {
        let j = nb(vf.size, i, d);
        lemma_nb(vf.size, i, d);
        if i == p {
            assert(v0.board[j] is Some);
            assert(v0.board_entry_ok(j));
            assert(same.contains(v0.board[j].unwrap() as usize));
            assert(vf.board[j] == relabel(v0.board[j], same, r));
        } else if j == p {
            assert(nb_valid(v0.size, p, opp(d)));
            assert(nb(v0.size, p, opp(d)) == i);
            assert(v0.board[i] is Some);
            assert(v0.board_entry_ok(i));
            assert(same.contains(v0.board[i].unwrap() as usize));
            assert(vf.board[i] == relabel(v0.board[i], same, r));
        } else {
            assert(nb_valid(v0.size, i, d));
            assert(v0.board[i] == v0.board[j]);
            assert(vf.board[i] == relabel(v0.board[i], same, r));
            assert(vf.board[j] == relabel(v0.board[j], same, r));
        }
    }
}

/// Two table slots that hold the same chain but for its liberties.
pub open spec fn same_but_libs(a: Option<Chain>, b: Option<Chain>) -> bool {
    match (a, b) {
        (Some(x), Some(y)) => x.color == y.color && x.origin == y.origin && x.last == y.last && x.num_stones == y.num_stones,
        (None, None) => true,
        _ => false,
    }
}

/// Changing liberties only keeps the structure sound and the colors as they were.
proof fn lemma_struct_libs_only(v0: GobanView, v: GobanView)
    requires
        v0.struct_ok(),
        v.board == v0.board,
        v.next_stone == v0.next_stone,
        v.members == v0.members,
        v.size == v0.size,
        v.chains.len() == v0.chains.len(),
        forall|c: int| 0 <= c < v0.chains.len() ==> same_but_libs(v0.chains[c], #[trigger] v.chains[c]),
    ensures
        v.struct_ok(),
        forall|i: int| 0 <= i < 361 ==> #[trigger] v.color_at(i) == v0.color_at(i),
        v.pos() == v0.pos(),
{
    assert forall|c: int| 0 <= c < v.chains.len() && #[trigger] v.chains[c] is Some implies v.chain_list_ok(c) by {
        assert(same_but_libs(v0.chains[c], v.chains[c]));
        assert(v0.chain_list_ok(c));
    }
    assert forall|i: int| 0 <= i < 361 && #[trigger] v.board[i] is Some implies v.board_entry_ok(i) by {
        assert(v0.board_entry_ok(i));
        assert(same_but_libs(v0.chains[v.board[i].unwrap() as int], v.chains[v.board[i].unwrap() as int]));
    }
    assert forall|i: int| 0 <= i < 361 implies #[trigger] v.color_at(i) == v0.color_at(i) by {
        if v.board[i] is Some {
            assert(v0.board_entry_ok(i));
            assert(same_but_libs(v0.chains[v.board[i].unwrap() as int], v.chains[v.board[i].unwrap() as int]));
        }
    }
    assert(v.pos() =~= v0.pos());
}

/// The chains of `d` are the chains of another color than `color` that touch `p` and have
/// no liberty left, each listed once.
pub open spec fn dead_list(v: GobanView, p: int, color: Color, d: Seq<usize>) -> bool {
    &&& d.no_duplicates()
    &&& forall|k: int| 0 <= k < d.len() ==> v.chain_live(#[trigger] d[k] as int) && v.chain(d[k] as int).color != color && lib_empty(
        v.chain(d[k] as int).liberties) && v.touches(d[k] as int, p)
    &&& forall|c: int| #[trigger] v.chain_live(c) && v.chain(c).color != color && lib_empty(v.chain(c).liberties) && v.touches(c, p) ==> d.contains(
        c as usize)
}

impl Goban {
    /// Sorts the neighbors of the empty point `p`: the chains of `color`, the other chains
    /// (each once) and the empty points.
    fn classify_neighbors(&self, p: BoardIdx, color: Color) -> (r: (ArrayVec<usize, 4>, ArrayVec<usize, 4>, ArrayVec<usize, 4>))
        requires
            self@.wf(),
            p < self@.area(),
            self@.board[p as int] is None,
        ensures
            classified(self@, p as int, color, idx4_items(r.0), idx4_items(r.1), idx4_items(r.2)),
    {
        let ghost v0 = self@;
        proof {
            lemma_area(self.size);
            lemma_nb_list(self.size, p as int);
        }
        let nbrs = neighbors_idx(self.size, p);
        let ghost l = nb_list(self.size, p as int);
        let n = idx4_len(&nbrs);
        let mut same = idx4_new();
        let mut oth = idx4_new();
        let mut libs = idx4_new();
        let mut k: usize = 0;
        while k < n
            invariant
                self@ == v0,
                v0.wf(),
                0 <= p < v0.area() <= 361,
                v0.board[p as int] is None,
                l == nb_list(v0.size, p as int),
                idx4_items(nbrs) == l,
                n == l.len(),
                0 <= k <= n,
                n <= 4,
                forall|m: int| 0 <= m < l.len() ==> adjacent(v0.size, p as int, #[trigger] l[m] as int),
                forall|m: int| 0 <= m < l.len() ==> 0 <= #[trigger] l[m] < v0.area(),
                l.no_duplicates(),
                idx4_items(same).no_duplicates(),
                idx4_items(oth).no_duplicates(),
                idx4_items(libs).no_duplicates(),
                idx4_items(same).len() <= k,
                idx4_items(oth).len() <= k,
                idx4_items(libs).len() <= k,
                forall|m: int| 0 <= m < idx4_items(same).len() ==> v0.chain_live(#[trigger] idx4_items(same)[m] as int) && v0.chain(
                    idx4_items(same)[m] as int).color == color && v0.touches(idx4_items(same)[m] as int, p as int),
                forall|m: int| 0 <= m < idx4_items(oth).len() ==> v0.chain_live(#[trigger] idx4_items(oth)[m] as int) && v0.chain(
                    idx4_items(oth)[m] as int).color != color && v0.touches(idx4_items(oth)[m] as int, p as int),
                forall|m: int| 0 <= m < k && v0.board[#[trigger] l[m] as int] is Some ==> (if v0.color_at(l[m] as int) == Some(color) {
                    idx4_items(same).contains(v0.board[l[m] as int].unwrap() as usize)
                } else {
                    idx4_items(oth).contains(v0.board[l[m] as int].unwrap() as usize)
                }),
                forall|t: usize| #[trigger] idx4_items(libs).contains(t) == (l.subrange(0, k as int).contains(t) && v0.board[t as int] is None),
            decreases n - k,
        {
            let q = idx4_get(&nbrs, k);
            let ghost s_prev = idx4_items(same);
            let ghost o_prev = idx4_items(oth);
            let ghost lk = l.subrange(0, k as int);
            let ghost lk1 = l.subrange(0, k + 1);
            proof {
                assert(adjacent(v0.size, p as int, q as int));
                assert(lk1 == lk.push(q));
            }
            match self.board[q] {
                Some(ci) => {
                    let ci = ci as usize;
                    proof {
                        assert(v0.board_entry_ok(q as int));
                        let d = choose|d: int| 0 <= d < 4 && nb_valid(v0.size, p as int, d) && #[trigger] nb(v0.size, p as int, d) == q as int;
                        assert(v0.board[nb(v0.size, p as int, d)] == Some(ci as u16));
                        assert(v0.touches(ci as int, p as int));
                    }
                    if self.chains[ci].unwrap().color == color {
                        if !idx4_contains(&same, ci) {
                            idx4_push(&mut same, ci);
                        }
                    } else if !idx4_contains(&oth, ci) {
                        idx4_push(&mut oth, ci);
                    }
                },
                None => {
                    proof {
                        assert(!lk.contains(q)) by {
                            if lk.contains(q) {
                                let m = choose|m: int| 0 <= m < lk.len() && lk[m] == q;
                                assert(l[m] == l[k as int]);
                            }
                        }
                    }
                    proof {
                        assert(!idx4_items(libs).contains(q));
                    }
                    idx4_push(&mut libs, q);
                },
            }
            proof {
                broadcast use vstd::seq_lib::lemma_seq_contains_after_push;
                assert forall|t: usize| #[trigger] idx4_items(libs).contains(t) == (lk1.contains(t) && v0.board[t as int] is None) by {
                    if lk1.contains(t) {
                        let m = choose|m: int| 0 <= m < lk1.len() && lk1[m] == t;
                        if m < k {
                            assert(lk[m] == t);
                        }
                    }
                    if lk.contains(t) {
                        let m = choose|m: int| 0 <= m < lk.len() && lk[m] == t;
                        assert(lk1[m] == t);
                    }
                }
                assert forall|m: int| 0 <= m < k + 1 && v0.board[#[trigger] l[m] as int] is Some implies (if v0.color_at(l[m] as int) == Some(color) {
                    idx4_items(same).contains(v0.board[l[m] as int].unwrap() as usize)
                } else {
                    idx4_items(oth).contains(v0.board[l[m] as int].unwrap() as usize)
                }) by {
                    if m < k {
                        let c = v0.board[l[m] as int].unwrap() as usize;
                        if v0.color_at(l[m] as int) == Some(color) {
                            assert(s_prev.contains(c));
                            let w = choose|w: int| 0 <= w < s_prev.len() && s_prev[w] == c;
                            assert(idx4_items(same)[w] == c);
                        } else {
                            assert(o_prev.contains(c));
                            let w = choose|w: int| 0 <= w < o_prev.len() && o_prev[w] == c;
                            assert(idx4_items(oth)[w] == c);
                        }
                    }
                }
            }
            k += 1;
        }
        proof {
            let sm = idx4_items(same);
            let ot = idx4_items(oth);
            let lb = idx4_items(libs);
            assert(l.subrange(0, n as int) == l);
            assert forall|d: int| 0 <= d < 4 && #[trigger] nb_valid(v0.size, p as int, d) && v0.board[nb(v0.size, p as int, d)] is Some implies (if v0.color_at(
                nb(v0.size, p as int, d)) == Some(color) {
                sm.contains(v0.board[nb(v0.size, p as int, d)].unwrap() as usize)
            } else {
                ot.contains(v0.board[nb(v0.size, p as int, d)].unwrap() as usize)
            }) by {
                let x = nb(v0.size, p as int, d);
                lemma_nb(v0.size, p as int, d);
                assert(adjacent(v0.size, p as int, x));
                assert(l.contains(x as usize));
                let m = choose|m: int| 0 <= m < l.len() && l[m] == x as usize;
                assert(v0.board[l[m] as int] is Some);
            }
            assert forall|j: int| 0 <= j < 384 implies #[trigger] lb.contains(j as usize) == (adjacent(v0.size, p as int, j) && v0.board[j] is None) by {
                if adjacent(v0.size, p as int, j) {
                    assert(l.contains(j as usize));
                }
                if l.contains(j as usize) {
                    let m = choose|m: int| 0 <= m < l.len() && l[m] == j as usize;
                    assert(adjacent(v0.size, p as int, l[m] as int));
                }
            }
            assert forall|m: int| 0 <= m < lb.len() implies #[trigger] lb[m] < 384 by {
                assert(lb.contains(lb[m]));
                let mm = choose|mm: int| 0 <= mm < l.len() && l[mm] == lb[m];
            }
        }
        (same, oth, libs)
    }

    /// Takes the liberty `p` from each chain of `oth`; returns those left without
    /// liberties.
    fn take_liberty(&mut self, oth: &ArrayVec<usize, 4>, p: BoardIdx, Ghost(same): Ghost<Seq<usize>>, Ghost(libs): Ghost<Seq<usize>>, Ghost(color): Ghost<Color>) -> (r: ArrayVec<usize, 4>)
        requires
            old(self)@.wf(),
            p < old(self)@.area(),
            old(self)@.board[p as int] is None,
            classified(old(self)@, p as int, color, same, idx4_items(*oth), libs),
        ensures
            final(self)@.struct_ok(),
            final(self)@.board == old(self)@.board,
            final(self)@.next_stone == old(self)@.next_stone,
            final(self)@.members == old(self)@.members,
            final(self)@.size == old(self)@.size,
            final(self)@.hash == old(self)@.hash,
            final(self)@.chains.len() == old(self)@.chains.len(),
            forall|c: int| 0 <= c < old(self)@.chains.len() ==> same_but_libs(old(self)@.chains[c], #[trigger] final(self)@.chains[c]),
            forall|c: int, j: int| 0 <= c < old(self)@.chains.len() && final(self)@.chains[c] is Some && 0 <= j < 384 ==> #[trigger] lib_has(
                final(self)@.chains[c].unwrap().liberties, j) == (lib_has(old(self)@.chains[c].unwrap().liberties, j) && !(j == p
                && idx4_items(*oth).contains(c as usize))),
            forall|c: int| 0 <= c < old(self)@.chains.len() && !idx4_items(*oth).contains(c as usize) ==> #[trigger] final(self)@.chains[c] == old(self)@.chains[c],
            idx4_items(r).no_duplicates(),
            forall|t: usize| #[trigger] idx4_items(r).contains(t) == (idx4_items(*oth).contains(t) && lib_empty(final(self)@.chains[t as int].unwrap().liberties)),
    {
        let ghost v0 = self@;
        let ghost ot = idx4_items(*oth);
        proof {
            lemma_area(v0.size);
        }
        let no = idx4_len(oth);
        let mut dead = idx4_new();
        let mut k: usize = 0;
        while k < no
            invariant
                v0.wf(),
                p < v0.area() <= 361,
                v0.board[p as int] is None,
                classified(v0, p as int, color, same, ot, libs),
                ot == idx4_items(*oth),
                no == ot.len(),
                0 <= k <= no,
                no <= 4,
                self@.board == v0.board,
                self@.next_stone == v0.next_stone,
                self@.members == v0.members,
                self@.size == v0.size,
                self@.hash == v0.hash,
                self@.chains.len() == v0.chains.len(),
                forall|c: int| 0 <= c < v0.chains.len() ==> same_but_libs(v0.chains[c], #[trigger] self@.chains[c]),
                forall|c: int, j: int| 0 <= c < v0.chains.len() && self@.chains[c] is Some && 0 <= j < 384 ==> #[trigger] lib_has(
                    self@.chains[c].unwrap().liberties, j) == (lib_has(v0.chains[c].unwrap().liberties, j) && !(j == p
                    && ot.subrange(0, k as int).contains(c as usize))),
                forall|c: int| 0 <= c < v0.chains.len() && !ot.subrange(0, k as int).contains(c as usize) ==> #[trigger] self@.chains[c] == v0.chains[c],
                idx4_items(dead).no_duplicates(),
                idx4_items(dead).len() <= k,
                forall|t: usize| #[trigger] idx4_items(dead).contains(t) == (ot.subrange(0, k as int).contains(t) && lib_empty(
                    self@.chains[t as int].unwrap().liberties)),
            decreases no - k,
        {
            let ci = idx4_get(oth, k);
            let ghost okk = ot.subrange(0, k as int);
            let ghost ok1 = ot.subrange(0, k + 1);
            proof {
                assert(ok1 == okk.push(ci));
                assert(!okk.contains(ci)) by {
                    if okk.contains(ci) {
                        let m = choose|m: int| 0 <= m < okk.len() && okk[m] == ci;
                        assert(ot[m] == ot[k as int]);
                    }
                }
                assert(v0.chain_live(ci as int));
                assert(same_but_libs(v0.chains[ci as int], self@.chains[ci as int]));
                assert(lib_has(v0.chains[ci as int].unwrap().liberties, p as int) == v0.is_lib(ci as int, p as int));
                assert(lib_has(self@.chains[ci as int].unwrap().liberties, p as int));
            }
            proof {
                assert(!idx4_items(dead).contains(ci));
            }
            let mut ch = self.chains[ci].unwrap();
            ch.remove_liberty(p);
            let dead_now = ch.is_dead();
            self.chains.set(ci, Some(ch));
            if dead_now {
                idx4_push(&mut dead, ci);
            }
            proof {
                broadcast use vstd::seq_lib::lemma_seq_contains_after_push;
                assert forall|c: int| 0 <= c < v0.chains.len() implies same_but_libs(v0.chains[c], #[trigger] self@.chains[c]) by {}
                assert forall|t: usize| #[trigger] idx4_items(dead).contains(t) == (ok1.contains(t) && lib_empty(
                    self@.chains[t as int].unwrap().liberties)) by {
                    if ok1.contains(t) && !okk.contains(t) {
                        assert(t == ci);
                    }
                    if okk.contains(t) {
                        let m = choose|m: int| 0 <= m < okk.len() && okk[m] == t;
                        assert(ok1[m] == t);
                    }
                }
                assert forall|c: int, j: int| 0 <= c < v0.chains.len() && self@.chains[c] is Some && 0 <= j < 384 implies #[trigger] lib_has(
                    self@.chains[c].unwrap().liberties, j) == (lib_has(v0.chains[c].unwrap().liberties, j) && !(j == p
                    && ok1.contains(c as usize))) by {
                    if ok1.contains(c as usize) && !okk.contains(c as usize) {
                        assert(c == ci);
                    }
                    if okk.contains(c as usize) {
                        let m = choose|m: int| 0 <= m < okk.len() && okk[m] == c as usize;
                        assert(ok1[m] == c as usize);
                    }
                }
                assert forall|c: int| 0 <= c < v0.chains.len() && !ok1.contains(c as usize) implies #[trigger] self@.chains[c] == v0.chains[c] by {
                    if okk.contains(c as usize) {
                        let m = choose|m: int| 0 <= m < okk.len() && okk[m] == c as usize;
                        assert(ok1[m] == c as usize);
                    }
                    assert(c != ci);
                }
            }
            k += 1;
        }
        proof {
            assert(ot.subrange(0, no as int) == ot);
            lemma_struct_libs_only(v0, self@);
        }
        dead
    }
}

/// A point is not its own neighbor.
proof fn lemma_not_adjacent_self(size: Size, p: int)
    ensures
        !adjacent(size, p, p),
{
    if adjacent(size, p, p) {
        let d = choose|d: int| 0 <= d < 4 && nb_valid(size, p, d) && #[trigger] nb(size, p, d) == p;
        lemma_nb(size, p, d);
    }
}

/// One step of `merge_neighbors`: merging chain `adj` (the `k`-th of `sm`) with the chain
/// `tm0` built so far keeps the loop's invariant.
proof fn lemma_merge_step(v0: GobanView, v2: GobanView, v3: GobanView, v: GobanView, sm: Seq<usize>, k: int, tm0: int, adj: int, g1: int,
    g2: int, n0: int, libs: Seq<usize>, p: int)
    requires
        v0.wf(),
        0 <= k < sm.len(),
        sm.no_duplicates(),
        adj == sm[k],
        (g1 == tm0 && g2 == adj) || (g1 == adj && g2 == tm0),
        !v0.chain_live(n0),
        v0.chain_live(adj),
        v3.chain(adj) == v0.chain(adj),
        v3.chain_live(tm0),
        forall|j: int| 0 <= j < 384 ==> #[trigger] lib_has(v3.chain(tm0).liberties, j) == (libs.contains(j as usize)
            || exists|m: int| 0 <= m < k && #[trigger] lib_has(v0.chain(sm[m] as int).liberties, j)),
        forall|i: int| 0 <= i < 361 && i != p ==> #[trigger] v3.board[i] == relabel(v0.board[i], sm.subrange(0, k), tm0),
        v3.board[p] == Some(tm0 as u16),
        forall|c: int| 0 <= c < v3.chains.len() && c != tm0 ==> (if sm.subrange(0, k).contains(c as usize) || c == n0 {
            #[trigger] v3.chains[c] is None
        } else {
            v3.chains[c] == v2.chains[c]
        }),
        tm0 == n0 || sm.subrange(0, k).contains(tm0 as usize),
        0 <= tm0 < 65536,
        0 <= adj < 65536,
        0 <= n0 < 65536,
        0 <= p < 361,
        v3.chains.len() <= 361,
        v.chains.len() == v3.chains.len(),
        v.chain_live(g1),
        v.chains[g2] is None,
        forall|j: int| 0 <= j < 384 ==> #[trigger] lib_has(v.chain(g1).liberties, j) == (lib_has(v3.chain(g1).liberties, j) || lib_has(
            v3.chain(g2).liberties, j)),
        forall|i: int| 0 <= i < 361 ==> #[trigger] v.board[i] == (if v3.board[i] == Some(g2 as u16) {
            Some(g1 as u16)
        } else {
            v3.board[i]
        }),
        forall|c: int| 0 <= c < v3.chains.len() && c != g1 && c != g2 ==> v.chains[c] == v3.chains[c],
    ensures
        forall|j: int| 0 <= j < 384 ==> #[trigger] lib_has(v.chain(g1).liberties, j) == (libs.contains(j as usize)
            || exists|m: int| 0 <= m < k + 1 && #[trigger] lib_has(v0.chain(sm[m] as int).liberties, j)),
        forall|i: int| 0 <= i < 361 && i != p ==> #[trigger] v.board[i] == relabel(v0.board[i], sm.subrange(0, k + 1), g1),
        v.board[p] == Some(g1 as u16),
        forall|c: int| 0 <= c < v.chains.len() && c != g1 ==> (if sm.subrange(0, k + 1).contains(c as usize) || c == n0 {
            #[trigger] v.chains[c] is None
        } else {
            v.chains[c] == v2.chains[c]
        }),
        g1 == n0 || sm.subrange(0, k + 1).contains(g1 as usize),
{
    broadcast use vstd::seq_lib::lemma_seq_contains_after_push;
    let sk = sm.subrange(0, k);
    let sk1 = sm.subrange(0, k + 1);
    assert(sk1 == sk.push(adj as usize));
    assert(!sk.contains(adj as usize)) by {
        if sk.contains(adj as usize) {
            let m = choose|m: int| 0 <= m < sk.len() && sk[m] == adj as usize;
            assert(sm[m] == sm[k]);
        }
    }
    assert(tm0 != adj);
    assert(v.board[p] == Some(g1 as u16));
    assert forall|j: int| 0 <= j < 384 implies #[trigger] lib_has(v.chain(g1).liberties, j) == (libs.contains(j as usize)
        || exists|m: int| 0 <= m < k + 1 && #[trigger] lib_has(v0.chain(sm[m] as int).liberties, j)) by {
        assert(lib_has(v3.chain(tm0).liberties, j) == (libs.contains(j as usize)
            || exists|m: int| 0 <= m < k && #[trigger] lib_has(v0.chain(sm[m] as int).liberties, j)));
        if exists|m: int| 0 <= m < k + 1 && #[trigger] lib_has(v0.chain(sm[m] as int).liberties, j) {
            let m = choose|m: int| 0 <= m < k + 1 && #[trigger] lib_has(v0.chain(sm[m] as int).liberties, j);
            if m < k {
                assert(exists|m: int| 0 <= m < k && #[trigger] lib_has(v0.chain(sm[m] as int).liberties, j));
            }
        }
        if exists|m: int| 0 <= m < k && #[trigger] lib_has(v0.chain(sm[m] as int).liberties, j) {
            let m = choose|m: int| 0 <= m < k && #[trigger] lib_has(v0.chain(sm[m] as int).liberties, j);
            assert(exists|m2: int| 0 <= m2 < k + 1 && #[trigger] lib_has(v0.chain(sm[m2] as int).liberties, j));
        }
        if lib_has(v0.chain(sm[k] as int).liberties, j) {
            assert(exists|m2: int| 0 <= m2 < k + 1 && #[trigger] lib_has(v0.chain(sm[m2] as int).liberties, j));
        }
    }
    assert forall|i: int| 0 <= i < 361 && i != p implies #[trigger] v.board[i] == relabel(v0.board[i], sk1, g1) by {
        assert(v3.board[i] == relabel(v0.board[i], sk, tm0));
        if v0.board[i] is Some {
            assert(v0.board_entry_ok(i));
            if v0.board[i] == Some(n0 as u16) {
                assert(false);
            }
        }
    }
    assert forall|c: int| 0 <= c < v.chains.len() && c != g1 implies (if sk1.contains(c as usize) || c == n0 {
        #[trigger] v.chains[c] is None
    } else {
        v.chains[c] == v2.chains[c]
    }) by {
        if c != tm0 && c != adj {
            assert(v.chains[c] == v3.chains[c]);
            assert((c as usize) != (adj as usize));
            vstd::seq_lib::lemma_seq_contains_after_push(sk, adj as usize, c as usize);
            assert(sk1.contains(c as usize) == sk.contains(c as usize));
        } else if c == adj {
            assert(sk.push(adj as usize).contains(c as usize));
            assert(sk1.contains(c as usize));
        } else {
            assert(c == tm0);
            if tm0 != n0 {
                assert(sk.contains(tm0 as usize));
                assert(sk.push(adj as usize).contains(c as usize));
                assert(sk1.contains(c as usize));
            }
        }
    }
}

impl Goban {
    /// Merges the chains of `same` one after the other into chain `n0`, which holds the new
    /// stone `p`; each time the chain with fewer liberties goes into the other. Returns the
    /// slot of the merged chain.
    #[verifier::spinoff_prover]
    #[verifier::rlimit(60)]
    fn merge_neighbors(&mut self, same: &ArrayVec<usize, 4>, n0: GroupIdx, p: BoardIdx, color: Color, Ghost(v0): Ghost<GobanView>,
        Ghost(oth): Ghost<Seq<usize>>, Ghost(libs): Ghost<Seq<usize>>) -> (tm: GroupIdx)
        requires
            v0.wf(),
            0 <= p < v0.area(),
            v0.board[p as int] is None,
            classified(v0, p as int, color, idx4_items(*same), oth, libs),
            old(self)@.struct_ok(),
            old(self)@.size == v0.size,
            old(self)@.board[p as int] == Some(n0 as u16),
            forall|i: int| 0 <= i < 361 && i != p ==> #[trigger] old(self)@.board[i] == v0.board[i],
            old(self)@.chain_live(n0 as int),
            old(self)@.chain(n0 as int).color == color,
            forall|j: int| 0 <= j < 384 ==> #[trigger] lib_has(old(self)@.chain(n0 as int).liberties, j) == libs.contains(j as usize),
            !v0.chain_live(n0 as int),
            forall|m: int| 0 <= m < idx4_items(*same).len() ==> #[trigger] old(self)@.chains[idx4_items(*same)[m] as int] == v0.chains[idx4_items(*same)[m] as int],
            old(self)@.chains.len() >= v0.chains.len(),
        ensures
            final(self)@.struct_ok(),
            final(self)@.size == v0.size,
            final(self)@.hash == old(self)@.hash,
            final(self)@.chains.len() == old(self)@.chains.len(),
            final(self)@.chain_live(tm as int),
            final(self)@.chain(tm as int).color == color,
            forall|j: int| 0 <= j < 384 ==> #[trigger] lib_has(final(self)@.chain(tm as int).liberties, j) == (libs.contains(j as usize)
                || exists|m: int| 0 <= m < idx4_items(*same).len() && #[trigger] lib_has(v0.chain(idx4_items(*same)[m] as int).liberties, j)),
            final(self)@.board[p as int] == Some(tm as u16),
            forall|i: int| 0 <= i < 361 && i != p ==> #[trigger] final(self)@.board[i] == relabel(v0.board[i], idx4_items(*same), tm as int),
            forall|c: int| 0 <= c < final(self)@.chains.len() && c != tm ==> (if idx4_items(*same).contains(c as usize) || c == n0 {
                #[trigger] final(self)@.chains[c] is None
            } else {
                final(self)@.chains[c] == old(self)@.chains[c]
            }),
            tm == n0 || idx4_items(*same).contains(tm as usize),
    {
        let ghost sm = idx4_items(*same);
        let ghost v2 = self@;
        let ns = idx4_len(same);
        let mut to_merge = n0;
        let mut k: usize = 0;
        proof {
            lemma_area(v0.size);
            assert forall|i: int| 0 <= i < 361 && i != p implies #[trigger] self@.board[i] == relabel(v0.board[i], sm.subrange(0, 0), n0 as int) by {}
            assert forall|j: int| 0 <= j < 384 implies #[trigger] lib_has(self@.chain(n0 as int).liberties, j) == (libs.contains(j as usize)
                || exists|m: int| 0 <= m < 0 && #[trigger] lib_has(v0.chain(sm[m] as int).liberties, j)) by {}
        }
        while k < ns
            invariant
                v0.wf(),
                0 <= p < v0.area() <= 361,
                v0.board[p as int] is None,
                classified(v0, p as int, color, sm, oth, libs),
                sm == idx4_items(*same),
                ns == sm.len(),
                0 <= k <= ns,
                n0 < 361,
                !v0.chain_live(n0 as int),
                forall|m: int| 0 <= m < sm.len() ==> #[trigger] v2.chains[sm[m] as int] == v0.chains[sm[m] as int],
                v2.chains.len() >= v0.chains.len(),
                self@.struct_ok(),
                self@.size == v0.size,
                self@.hash == v2.hash,
                self@.chains.len() == v2.chains.len(),
                self@.chain_live(to_merge as int),
                self@.chain(to_merge as int).color == color,
                forall|j: int| 0 <= j < 384 ==> #[trigger] lib_has(self@.chain(to_merge as int).liberties, j) == (libs.contains(j as usize)
                    || exists|m: int| 0 <= m < k && #[trigger] lib_has(v0.chain(sm[m] as int).liberties, j)),
                self@.board[p as int] == Some(to_merge as u16),
                forall|i: int| 0 <= i < 361 && i != p ==> #[trigger] self@.board[i] == relabel(v0.board[i], sm.subrange(0, k as int), to_merge as int),
                forall|c: int| 0 <= c < self@.chains.len() && c != to_merge ==> (if sm.subrange(0, k as int).contains(c as usize) || c == n0 {
                    #[trigger] self@.chains[c] is None
                } else {
                    self@.chains[c] == v2.chains[c]
                }),
                to_merge == n0 || sm.subrange(0, k as int).contains(to_merge as usize),
            decreases ns - k,
        {
            let adj = idx4_get(same, k);
            let ghost sk = sm.subrange(0, k as int);
            let ghost sk1 = sm.subrange(0, k + 1);
            let ghost v3 = self@;
            let ghost tm0 = to_merge as int;
            proof {
                assert(!sk.contains(adj)) by {
                    if sk.contains(adj) {
                        let m = choose|m: int| 0 <= m < sk.len() && sk[m] == adj;
                        assert(sm[m] == sm[k as int]);
                    }
                }
                assert(v0.chain_live(adj as int));
                assert(adj != n0);
                assert(adj != to_merge);
                assert(v2.chains[sm[k as int] as int] == v0.chains[sm[k as int] as int]);
                assert(adj < self@.chains.len());
                assert(self@.chains[adj as int] == v2.chains[adj as int]);
                assert(v3.chain(adj as int) == v0.chain(adj as int));
            }
            let la = self.chains[adj].unwrap().number_of_liberties();
            let lt = self.chains[to_merge].unwrap().number_of_liberties();
            if la < lt {
                self.merge_strings(to_merge, adj);
            } else {
                self.merge_strings(adj, to_merge);
                to_merge = adj;
            }
            proof {
                let (g1, g2) = if la < lt { (tm0, adj as int) } else { (adj as int, tm0) };
                lemma_merge_step(v0, v2, v3, self@, sm, k as int, tm0, adj as int, g1, g2, n0 as int, libs, p as int);
            }
            k += 1;
        }
        proof {
            assert(sm.subrange(0, ns as int) == sm);
        }
        to_merge
    }
}

/// The chains that `take_liberty` reported are those that the push left without liberties.
proof fn lemma_push_dead(v0: GobanView, v1: GobanView, vf: GobanView, p: int, color: Color, sm: Seq<usize>, ot: Seq<usize>, lb: Seq<usize>, r: int, dead: Seq<usize>)
    requires
        v0.wf(),
        0 <= p < v0.area(),
        v0.board[p] is None,
        classified(v0, p, color, sm, ot, lb),
        pushed(v0, vf, p, color, sm, ot, lb, r),
        forall|m: int| 0 <= m < ot.len() ==> #[trigger] vf.chains[ot[m] as int] == v1.chains[ot[m] as int],
        v1.chains.len() == v0.chains.len(),
        forall|c: int| 0 <= c < v0.chains.len() ==> same_but_libs(v0.chains[c], #[trigger] v1.chains[c]),
        dead.no_duplicates(),
        forall|t: usize| #[trigger] dead.contains(t) == (ot.contains(t) && lib_empty(v1.chains[t as int].unwrap().liberties)),
    ensures
        dead_list(vf, p, color, dead),
{
    lemma_area(v0.size);
    assert forall|k: int| 0 <= k < dead.len() implies vf.chain_live(#[trigger] dead[k] as int) && vf.chain(dead[k] as int).color != color && lib_empty(
        vf.chain(dead[k] as int).liberties) && vf.touches(dead[k] as int, p) by {
        let t = dead[k];
        assert(dead.contains(t));
        let m = choose|m: int| 0 <= m < ot.len() && ot[m] == t;
        assert(vf.chains[ot[m] as int] == v1.chains[ot[m] as int]);
        assert(v0.chain_live(ot[m] as int));
        assert(same_but_libs(v0.chains[t as int], v1.chains[t as int]));
        assert(v0.touches(ot[m] as int, p));
        let d = choose|d: int| 0 <= d < 4 && nb_valid(v0.size, p, d) && #[trigger] v0.board[nb(v0.size, p, d)] == Some(t as u16);
        lemma_nb(v0.size, p, d);
        assert(vf.board[nb(vf.size, p, d)] == relabel(v0.board[nb(v0.size, p, d)], sm, r));
        if sm.contains(t) {
            let w = choose|w: int| 0 <= w < sm.len() && sm[w] == t;
            assert(v0.chain(sm[w] as int).color == color);
        }
        assert(vf.board[nb(vf.size, p, d)] == Some(t as u16));
    }
    assert forall|c: int| #[trigger] vf.chain_live(c) && vf.chain(c).color != color && lib_empty(vf.chain(c).liberties) && vf.touches(c, p) implies dead.contains(
        c as usize) by {
        let d = choose|d: int| 0 <= d < 4 && nb_valid(vf.size, p, d) && #[trigger] vf.board[nb(vf.size, p, d)] == Some(c as u16);
        lemma_nb(vf.size, p, d);
        let x = nb(vf.size, p, d);
        assert(c != r);
        assert(vf.board[x] == relabel(v0.board[x], sm, r));
        assert(v0.board[x] == Some(c as u16));
        assert(!sm.contains(c as usize));
        assert(v0.board_entry_ok(x));
        assert(ot.contains(c as usize));
        let m = choose|m: int| 0 <= m < ot.len() && ot[m] == c as usize;
        assert(vf.chains[ot[m] as int] == v1.chains[ot[m] as int]);
    }
}

/// `v1` is `v0` after the chains of `oth` lost the liberty `p`.
pub open spec fn took_liberty(v0: GobanView, v1: GobanView, p: int, oth: Seq<usize>) -> bool {
    &&& v1.struct_ok()
    &&& v1.board == v0.board
    &&& v1.next_stone == v0.next_stone
    &&& v1.members == v0.members
    &&& v1.size == v0.size
    &&& v1.hash == v0.hash
    &&& v1.chains.len() == v0.chains.len()
    &&& forall|c: int| 0 <= c < v0.chains.len() ==> same_but_libs(v0.chains[c], #[trigger] v1.chains[c])
    &&& forall|c: int, j: int| 0 <= c < v0.chains.len() && v1.chains[c] is Some && 0 <= j < 384 ==> #[trigger] lib_has(
        v1.chains[c].unwrap().liberties, j) == (lib_has(v0.chains[c].unwrap().liberties, j) && !(j == p && oth.contains(c as usize)))
    &&& forall|c: int| 0 <= c < v0.chains.len() && !oth.contains(c as usize) ==> #[trigger] v1.chains[c] == v0.chains[c]
}

/// What each way of placing the stone guarantees.
pub open spec fn placed(v0: GobanView, v1: GobanView, vf: GobanView, p: int, color: Color, sm: Seq<usize>, ot: Seq<usize>, lb: Seq<usize>, r: int) -> bool {
    &&& pushed(v0, vf, p, color, sm, ot, lb, r)
    &&& vf.hash == v1.hash
    &&& forall|m: int| 0 <= m < ot.len() ==> #[trigger] vf.chains[ot[m] as int] == v1.chains[ot[m] as int]
}

/// The facts shared by the ways of placing the stone.
pub open spec fn ready_to_place(v0: GobanView, v1: GobanView, p: int, color: Color, sm: Seq<usize>, ot: Seq<usize>, lb: Seq<usize>) -> bool {
    &&& v0.wf()
    &&& 0 <= p < v0.area() <= 361
    &&& v0.board[p] is None
    &&& classified(v0, p, color, sm, ot, lb)
    &&& took_liberty(v0, v1, p, ot)
    &&& !lb.contains(p as usize)
    &&& forall|m: int| 0 <= m < sm.len() ==> !ot.contains(#[trigger] sm[m])
    &&& forall|m: int| 0 <= m < ot.len() ==> !sm.contains(#[trigger] ot[m])
}

/// Two views that differ in their hash alone agree on everything but the hash.
proof fn lemma_hash_only(a: GobanView, b: GobanView)
    requires
        a.chains == b.chains,
        a.board == b.board,
        a.next_stone == b.next_stone,
        a.size == b.size,
        a.members == b.members,
    ensures
        a.struct_ok() == b.struct_ok(),
        a.libs_ok() == b.libs_ok(),
        a.maximal_ok() == b.maximal_ok(),
        a.pos() == b.pos(),
        forall|c: int, j: int| #[trigger] a.touches(c, j) == b.touches(c, j),
        forall|c: int, j: int| #[trigger] a.is_lib(c, j) == b.is_lib(c, j),
        forall|c: int| #[trigger] a.chain_live(c) == b.chain_live(c),
        forall|c: int| #[trigger] a.chain(c) == b.chain(c),
{
    assert forall|c: int, j: int| #[trigger] a.touches(c, j) == b.touches(c, j) by {
        if a.touches(c, j) {
            let d = choose|d: int| 0 <= d < 4 && nb_valid(a.size, j, d) && #[trigger] a.board[nb(a.size, j, d)] == Some(c as u16);
            assert(b.board[nb(b.size, j, d)] == Some(c as u16));
        }
        if b.touches(c, j) {
            let d = choose|d: int| 0 <= d < 4 && nb_valid(b.size, j, d) && #[trigger] b.board[nb(b.size, j, d)] == Some(c as u16);
            assert(a.board[nb(a.size, j, d)] == Some(c as u16));
        }
    }
    assert forall|c: int, j: int| #[trigger] a.is_lib(c, j) == b.is_lib(c, j) by {
        assert(a.touches(c, j) == b.touches(c, j));
    }
    assert forall|c: int| 0 <= c < a.chains.len() && a.chains[c] is Some implies #[trigger] a.chain_list_ok(c) == b.chain_list_ok(c) by {}
    assert forall|i: int| 0 <= i < 361 && a.board[i] is Some implies #[trigger] a.board_entry_ok(i) == b.board_entry_ok(i) by {}
    if b.libs_ok() {
        assert forall|c: int, j: int| 0 <= c < a.chains.len() && a.chains[c] is Some && 0 <= j < 384 implies (#[trigger] lib_has(
            a.chains[c].unwrap().liberties, j) == #[trigger] a.is_lib(c, j)) by {
            assert(lib_has(b.chains[c].unwrap().liberties, j) == b.is_lib(c, j));
        }
    }
    if a.libs_ok() {
        assert forall|c: int, j: int| 0 <= c < b.chains.len() && b.chains[c] is Some && 0 <= j < 384 implies (#[trigger] lib_has(
            b.chains[c].unwrap().liberties, j) == #[trigger] b.is_lib(c, j)) by {
            assert(lib_has(a.chains[c].unwrap().liberties, j) == a.is_lib(c, j));
        }
    }
    assert forall|i: int| 0 <= i < 361 implies #[trigger] a.color_at(i) == b.color_at(i) by {}
    assert(a.pos() =~= b.pos());
    if b.maximal_ok() {
        assert forall|i: int, d: int| 0 <= d < 4 && #[trigger] nb_valid(a.size, i, d) && a.board[i] is Some && a.board[nb(a.size, i, d)] is Some
            && a.color_at(i) == a.color_at(nb(a.size, i, d)) implies a.board[i] == a.board[nb(a.size, i, d)] by {
            assert(nb_valid(b.size, i, d));
        }
    }
    if a.maximal_ok() {
        assert forall|i: int, d: int| 0 <= d < 4 && #[trigger] nb_valid(b.size, i, d) && b.board[i] is Some && b.board[nb(b.size, i, d)] is Some
            && b.color_at(i) == b.color_at(nb(b.size, i, d)) implies b.board[i] == b.board[nb(b.size, i, d)] by {
            assert(nb_valid(a.size, i, d));
        }
    }
}

/// Chain `c` has another color than `color`, touches `p` and has no liberty but `p`: a
/// stone of `color` at `p` captures it.
pub open spec fn captured_by(v: GobanView, p: int, color: Color, c: int) -> bool {
    &&& v.chain_live(c)
    &&& v.chain(c).color != color
    &&& v.touches(c, p)
    &&& forall|j: int| 0 <= j < 384 && #[trigger] lib_has(v.chain(c).liberties, j) ==> j == p
}

/// The points of the chain that a stone of `color` at `p` makes: `p` and the chains of
/// `color` that touch it.
pub open spec fn joined_group(v: GobanView, p: int, color: Color) -> Set<int> {
    Set::new(|i: int| 0 <= i < 361 && (i == p || (v.board[i] is Some && v.chain_live(v.board[i].unwrap() as int)
        && v.chain(v.board[i].unwrap() as int).color == color && v.touches(v.board[i].unwrap() as int, p))))
}

/// The position after a stone of `color` at `p` captured the chains it takes.
pub open spec fn after_capture(v: GobanView, p: int, color: Color) -> Seq<Option<Color>> {
    Seq::new(361, |i: int| if i == p {
        Some(color)
    } else if v.board[i] is Some && captured_by(v, p, color, v.board[i].unwrap() as int) {
        None
    } else {
        v.pos()[i]
    })
}

/// The stone of `color` at `p` takes its own chain's life: suicide is allowed and, after
/// the captures, no stone of the chain has an empty neighbor.
pub open spec fn is_self_capture(v: GobanView, p: int, color: Color, suicide_allowed: bool) -> bool {
    suicide_allowed && !breathes(after_capture(v, p, color), v.size, joined_group(v, p, color))
}

/// The position after a stone of `color` is played at `p`: captures, then the suicide of
/// the stone's own chain where allowed.
pub open spec fn play_pos(v: GobanView, p: int, color: Color, suicide_allowed: bool) -> Seq<Option<Color>> {
    if is_self_capture(v, p, color, suicide_allowed) {
        Seq::new(361, |i: int| if joined_group(v, p, color).contains(i) {
            None
        } else {
            after_capture(v, p, color)[i]
        })
    } else {
        after_capture(v, p, color)
    }
}

/// The ko point after a stone of `color` at `p`: the point of the captured stone when
/// exactly one chain, of one stone, was captured and the stone's chain stays.
pub open spec fn play_ko(v: GobanView, p: int, color: Color, suicide_allowed: bool) -> Option<Coord> {
    if !is_self_capture(v, p, color, suicide_allowed) && exists|c: int| #[trigger] captured_by(v, p, color, c) && v.chain(c).num_stones == 1 && (forall|c2: int| #[trigger] captured_by(v, p, color, c2) ==> c2 == c) {
        let c = choose|c: int| #[trigger] captured_by(v, p, color, c) && v.chain(c).num_stones == 1 && (forall|c2: int| #[trigger] captured_by(v, p, color, c2) ==> c2 == c);
        Some(coord_of(v.size, v.chain(c).origin as int))
    } else {
        None
    }
}

/// What a push guarantees about the chains of the goban before it.
pub open spec fn push_links(v0: GobanView, vf: GobanView, p: int, color: Color, dead: Seq<usize>, r: int) -> bool {
    &&& forall|c: int| 0 <= c < 65536 ==> (#[trigger] dead.contains(c as usize) <==> captured_by(v0, p, color, c))
    &&& forall|c: int, i: int| #![trigger captured_by(v0, p, color, c), vf.board[i]] captured_by(v0, p, color, c) && 0 <= i < 361 ==> (vf.board[i] == Some(c as u16) <==> v0.board[i] == Some(
        c as u16))
    &&& forall|c: int| #[trigger] captured_by(v0, p, color, c) ==> same_but_libs(v0.chains[c], vf.chains[c])
    &&& chain_points(vf, r) == joined_group(v0, p, color)
    &&& forall|i: int| 0 <= i < 361 && i != p && !(v0.board[i] is Some && captured_by(v0, p, color, v0.board[i].unwrap() as int)) ==> #[trigger] vf.pos()[i] == v0.pos()[i]
}

/// The result of a push, told in terms of the goban before it.
proof fn lemma_push_v0(v0: GobanView, v1: GobanView, vf: GobanView, p: int, color: Color, sm: Seq<usize>, ot: Seq<usize>, lb: Seq<usize>, r: int, dead: Seq<usize>)
    requires
        ready_to_place(v0, v1, p, color, sm, ot, lb),
        placed(v0, v1, vf, p, color, sm, ot, lb, r),
        vf.pos() == v0.pos().update(p, Some(color)),
        dead.no_duplicates(),
        forall|t: usize| #[trigger] dead.contains(t) == (ot.contains(t) && lib_empty(v1.chains[t as int].unwrap().liberties)),
    ensures
        push_links(v0, vf, p, color, dead, r),
{
    lemma_area(v0.size);
    assert forall|c: int| 0 <= c < 65536 implies (#[trigger] dead.contains(c as usize) <==> captured_by(v0, p, color, c)) by {
        if dead.contains(c as usize) {
            let m = choose|m: int| 0 <= m < ot.len() && ot[m] == c as usize;
            assert(v0.chain_live(ot[m] as int));
            assert forall|j: int| 0 <= j < 384 && #[trigger] lib_has(v0.chain(c).liberties, j) implies j == p by {
                assert(same_but_libs(v0.chains[c], v1.chains[c]));
                assert(lib_has(v1.chains[c].unwrap().liberties, j) == (lib_has(v0.chains[c].unwrap().liberties, j) && !(j == p && ot.contains(c as usize))));
            }
        }
        if captured_by(v0, p, color, c) {
            let d = choose|d: int| 0 <= d < 4 && nb_valid(v0.size, p, d) && #[trigger] v0.board[nb(v0.size, p, d)] == Some(c as u16);
            lemma_nb(v0.size, p, d);
            assert(v0.board_entry_ok(nb(v0.size, p, d)));
            assert(v0.board[nb(v0.size, p, d)] is Some);
            assert(ot.contains(c as usize));
            assert(same_but_libs(v0.chains[c], v1.chains[c]));
            assert forall|j: int| 0 <= j < 384 implies !lib_has(v1.chains[c].unwrap().liberties, j) by {
                assert(lib_has(v1.chains[c].unwrap().liberties, j) == (lib_has(v0.chains[c].unwrap().liberties, j) && !(j == p && ot.contains(c as usize))));
                if lib_has(v0.chain(c).liberties, j) {
                    assert(j == p);
                }
            }
        }
    }
    assert forall|c: int| #[trigger] captured_by(v0, p, color, c) implies !sm.contains(c as usize) && c != r by {
        if sm.contains(c as usize) {
            let m = choose|m: int| 0 <= m < sm.len() && sm[m] == c as usize;
            assert(v0.chain(sm[m] as int).color == color);
        }
    }
    assert forall|c: int, i: int| #![trigger captured_by(v0, p, color, c), vf.board[i]] captured_by(v0, p, color, c) && 0 <= i < 361 implies (vf.board[i] == Some(c as u16) <==> v0.board[i] == Some(
        c as u16)) by {
        assert(!sm.contains(c as usize) && c != r);
        assert(v0.struct_ok());
        if i != p {
            assert(vf.board[i] == relabel(v0.board[i], sm, r));
            if v0.board[i] is Some && sm.contains(v0.board[i].unwrap() as usize) {
                let m = choose|m: int| 0 <= m < sm.len() && sm[m] == v0.board[i].unwrap() as usize;
                assert(v0.chain_live(sm[m] as int));
            }
        }
    }
    assert forall|c: int| #[trigger] captured_by(v0, p, color, c) implies same_but_libs(v0.chains[c], vf.chains[c]) by {
        let d = choose|d: int| 0 <= d < 4 && nb_valid(v0.size, p, d) && #[trigger] v0.board[nb(v0.size, p, d)] == Some(c as u16);
        lemma_nb(v0.size, p, d);
        assert(v0.board_entry_ok(nb(v0.size, p, d)));
        assert(v0.board[nb(v0.size, p, d)] is Some);
        assert(ot.contains(c as usize));
        let m = choose|m: int| 0 <= m < ot.len() && ot[m] == c as usize;
        assert(vf.chains[ot[m] as int] == v1.chains[ot[m] as int]);
        assert(same_but_libs(v0.chains[c], v1.chains[c]));
    }
    assert forall|i: int| #[trigger] chain_points(vf, r).contains(i) == joined_group(v0, p, color).contains(i) by {
        if 0 <= i < 361 && i != p {
            assert(vf.board[i] == relabel(v0.board[i], sm, r));
            if v0.board[i] is Some {
                let c0 = v0.board[i].unwrap() as int;
                assert(v0.board_entry_ok(i));
                if sm.contains(c0 as usize) {
                    let m = choose|m: int| 0 <= m < sm.len() && sm[m] == c0 as usize;
                    assert(v0.chain_live(sm[m] as int));
                } else {
                    if v0.chain(c0).color == color && v0.touches(c0, p) {
                        let d = choose|d: int| 0 <= d < 4 && nb_valid(v0.size, p, d) && #[trigger] v0.board[nb(v0.size, p, d)] == Some(c0 as u16);
                        lemma_nb(v0.size, p, d);
                        assert(v0.board_entry_ok(nb(v0.size, p, d)));
                        assert(v0.board[nb(v0.size, p, d)] is Some);
                        assert(sm.contains(c0 as usize));
                    }
                    if c0 == r {
                        assert(v0.chain_live(r));
                        assert(sm.contains(r as usize));
                    }
                }
            }
        }
    }
    assert(chain_points(vf, r) =~= joined_group(v0, p, color));
}

impl Goban {
    /// The stone has no neighbor of its color: it makes a chain of its own.
    #[verifier::spinoff_prover]
    #[verifier::rlimit(50)]
    fn place_alone(&mut self, p: BoardIdx, color: Color, libs: &[usize], Ghost(v0): Ghost<GobanView>, Ghost(sm): Ghost<Seq<usize>>,
        Ghost(ot): Ghost<Seq<usize>>) -> (r: GroupIdx)
        requires
            ready_to_place(v0, old(self)@, p as int, color, sm, ot, libs@),
            sm.len() == 0,
        ensures
            placed(v0, old(self)@, final(self)@, p as int, color, sm, ot, libs@, r as int),
    {
        let ghost v1 = self@;
        let ghost lb = libs@;
        let r = self.create_chain(p, color, libs);
        proof {
            let vf = self@;
            assert forall|i: int| 0 <= i < 361 && i != p implies #[trigger] vf.board[i] == relabel(v0.board[i], sm, r as int) by {}
            assert forall|j: int| 0 <= j < 384 implies #[trigger] lib_has(vf.chain(r as int).liberties, j) == merged_lib(v0, p as int, sm,
                lb, j) by {}
            assert forall|c: int| 0 <= c < vf.chains.len() && c != r && #[trigger] vf.chains[c] is Some implies {
                &&& v0.chain_live(c)
                &&& !sm.contains(c as usize)
                &&& vf.chain(c).color == v0.chain(c).color
                &&& forall|j: int| 0 <= j < 384 ==> #[trigger] lib_has(vf.chain(c).liberties, j) == (lib_has(v0.chain(c).liberties, j)
                    && !(j == p && ot.contains(c as usize)))
            } by {
                assert(same_but_libs(v0.chains[c], v1.chains[c]));
            }
            assert forall|m: int| 0 <= m < ot.len() implies #[trigger] vf.chains[ot[m] as int] == v1.chains[ot[m] as int] by {
                assert(v0.chain_live(ot[m] as int));
                assert(same_but_libs(v0.chains[ot[m] as int], v1.chains[ot[m] as int]));
                assert(ot[m] != r);
            }
        }
        r
    }

    /// The stone has one neighboring chain of its color: it joins it.
    #[verifier::spinoff_prover]
    #[verifier::rlimit(50)]
    fn place_on_one(&mut self, s0: GroupIdx, p: BoardIdx, color: Color, libs: &[usize], Ghost(v0): Ghost<GobanView>, Ghost(sm): Ghost<Seq<usize>>,
        Ghost(ot): Ghost<Seq<usize>>) -> (r: GroupIdx)
        requires
            ready_to_place(v0, old(self)@, p as int, color, sm, ot, libs@),
            sm.len() == 1,
            sm[0] == s0,
        ensures
            placed(v0, old(self)@, final(self)@, p as int, color, sm, ot, libs@, r as int),
    {
        let ghost v1 = self@;
        let ghost lb = libs@;
        proof {
            assert(v0.chain_live(sm[0] as int));
            assert(same_but_libs(v0.chains[s0 as int], v1.chains[s0 as int]));
            assert(lib_has(v0.chains[s0 as int].unwrap().liberties, p as int) == v0.is_lib(s0 as int, p as int));
            assert(!ot.contains(sm[0]));
            assert(v1.chains[s0 as int] == v0.chains[s0 as int]);
        }
        let mut ch = self.chains[s0].unwrap();
        ch.remove_liberty(p);
        ch.union_liberties_slice(libs);
        self.chains.set(s0, Some(ch));
        proof {
            assert forall|c: int| 0 <= c < v1.chains.len() implies same_but_libs(v1.chains[c], #[trigger] self@.chains[c]) by {}
            lemma_struct_libs_only(v1, self@);
        }
        let ghost v1b = self@;
        self.add_stone_to_chain(s0, p);
        proof {
            let vf = self@;
            let r = s0;
            assert(sm =~= seq![s0]);
            assert forall|i: int| 0 <= i < 361 && i != p implies #[trigger] vf.board[i] == relabel(v0.board[i], sm, r as int) by {
                if v0.board[i] is Some && sm.contains(v0.board[i].unwrap() as usize) {
                    assert(v0.board[i].unwrap() as usize == s0);
                }
            }
            assert forall|j: int| 0 <= j < 384 implies #[trigger] lib_has(vf.chain(r as int).liberties, j) == merged_lib(v0, p as int, sm,
                lb, j) by {
                if lib_has(v0.chain(sm[0] as int).liberties, j) {
                    assert(exists|m: int| 0 <= m < sm.len() && #[trigger] lib_has(v0.chain(sm[m] as int).liberties, j));
                }
            }
            assert forall|c: int| 0 <= c < vf.chains.len() && c != r && #[trigger] vf.chains[c] is Some implies {
                &&& v0.chain_live(c)
                &&& !sm.contains(c as usize)
                &&& vf.chain(c).color == v0.chain(c).color
                &&& forall|j: int| 0 <= j < 384 ==> #[trigger] lib_has(vf.chain(c).liberties, j) == (lib_has(v0.chain(c).liberties, j)
                    && !(j == p && ot.contains(c as usize)))
            } by {
                assert(same_but_libs(v0.chains[c], v1.chains[c]));
            }
            assert forall|m: int| 0 <= m < ot.len() implies #[trigger] vf.chains[ot[m] as int] == v1.chains[ot[m] as int] by {
                assert(v0.chain_live(ot[m] as int));
                assert(!sm.contains(ot[m]));
                if ot[m] == s0 {
                    assert(sm.contains(ot[m]));
                }
                assert(vf.chains[ot[m] as int] == v1b.chains[ot[m] as int]);
            }
        }
        s0
    }

    /// The stone has several neighboring chains of its color: they and the stone become one
    /// chain.
    #[verifier::spinoff_prover]
    #[verifier::rlimit(50)]
    fn place_on_many(&mut self, same: &ArrayVec<usize, 4>, p: BoardIdx, color: Color, libs: &[usize], Ghost(v0): Ghost<GobanView>,
        Ghost(ot): Ghost<Seq<usize>>) -> (r: GroupIdx)
        requires
            ready_to_place(v0, old(self)@, p as int, color, idx4_items(*same), ot, libs@),
            idx4_items(*same).len() >= 2,
        ensures
            placed(v0, old(self)@, final(self)@, p as int, color, idx4_items(*same), ot, libs@, r as int),
    {
        let ghost v1 = self@;
        let ghost lb = libs@;
        let ghost sm = idx4_items(*same);
        let n0 = self.create_chain(p, color, libs);
        let ghost v2 = self@;
        proof {
            assert forall|m: int| 0 <= m < sm.len() implies #[trigger] v2.chains[sm[m] as int] == v0.chains[sm[m] as int] by {
                assert(!ot.contains(sm[m]));
                assert(v0.chain_live(sm[m] as int));
                assert(v1.chains[sm[m] as int] == v0.chains[sm[m] as int]);
            }
            assert(!v0.chain_live(n0 as int)) by {
                if n0 < v0.chains.len() {
                    assert(same_but_libs(v0.chains[n0 as int], v1.chains[n0 as int]));
                }
            }
        }
        let tm = self.merge_neighbors(same, n0, p, color, Ghost(v0), Ghost(ot), Ghost(lb));
        let ghost v3 = self@;
        proof {
            assert(v0.chain_live(sm[0] as int));
            assert(lib_has(v0.chains[sm[0] as int].unwrap().liberties, p as int) == v0.is_lib(sm[0] as int, p as int));
            assert(lib_has(v3.chain(tm as int).liberties, p as int));
        }
        let mut ch = self.chains[tm].unwrap();
        ch.remove_liberty(p);
        self.chains.set(tm, Some(ch));
        proof {
            assert forall|c: int| 0 <= c < v3.chains.len() implies same_but_libs(v3.chains[c], #[trigger] self@.chains[c]) by {}
            lemma_struct_libs_only(v3, self@);
            let vf = self@;
            let r = tm;
            assert forall|j: int| 0 <= j < 384 implies #[trigger] lib_has(vf.chain(r as int).liberties, j) == merged_lib(v0, p as int, sm,
                lb, j) by {}
            assert forall|c: int| 0 <= c < vf.chains.len() && c != r && #[trigger] vf.chains[c] is Some implies {
                &&& v0.chain_live(c)
                &&& !sm.contains(c as usize)
                &&& vf.chain(c).color == v0.chain(c).color
                &&& forall|j: int| 0 <= j < 384 ==> #[trigger] lib_has(vf.chain(c).liberties, j) == (lib_has(v0.chain(c).liberties, j)
                    && !(j == p && ot.contains(c as usize)))
            } by {
                assert(vf.chains[c] == v3.chains[c]);
                assert(v3.chains[c] == v2.chains[c]);
                assert(same_but_libs(v0.chains[c], v1.chains[c]));
            }
            assert forall|m: int| 0 <= m < ot.len() implies #[trigger] vf.chains[ot[m] as int] == v1.chains[ot[m] as int] by {
                let c = ot[m] as int;
                assert(v0.chain_live(c));
                assert(!sm.contains(ot[m]));
                assert(c != n0);
                assert(c != tm);
                assert(vf.chains[c] == v3.chains[c]);
                assert(v3.chains[c] == v2.chains[c]);
            }
        }
        tm
    }

    /// Puts a stone of `color` on the empty point `point`. Returns the chains of the other
    /// color that the stone left without liberties, and the chain that holds the stone.
    #[verifier::spinoff_prover]
    #[verifier::rlimit(50)]
    pub(crate) fn push_wth_feedback(&mut self, point: Coord, color: Color) -> (r: (ArrayVec<usize, 4>, GroupIdx))
        requires
            old(self)@.wf(),
            spec_coord_valid(old(self)@.size, point),
            old(self)@.pos()[spec_idx(old(self)@.size, point)] is None,
        ensures
            final(self)@.wf(),
            final(self)@.size == old(self)@.size,
            final(self)@.pos() == old(self)@.pos().update(spec_idx(old(self)@.size, point), Some(color)),
            final(self)@.chain_of(spec_idx(old(self)@.size, point)) == Some(r.1 as u16),
            final(self)@.chain_live(r.1 as int),
            dead_list(final(self)@, spec_idx(old(self)@.size, point), color, idx4_items(r.0)),
            push_links(old(self)@, final(self)@, spec_idx(old(self)@.size, point), color, idx4_items(r.0), r.1 as int),
    {
        let ghost v0 = self@;
        proof {
            lemma_idx(self.size, point.0 as int, point.1 as int);
            lemma_area(self.size);
            v0.lemma_wf();
        }
        let p = two_to_1dim(self.size, point);
        let (same, oth, libs) = self.classify_neighbors(p, color);
        let ghost sm = idx4_items(same);
        let ghost ot = idx4_items(oth);
        let ghost lb = idx4_items(libs);
        let dead = self.take_liberty(&oth, p, Ghost(sm), Ghost(lb), Ghost(color));
        let ghost v1 = self@;
        proof {
            lemma_not_adjacent_self(v0.size, p as int);
            assert(lb.contains((p as int) as usize) == (adjacent(v0.size, p as int, p as int) && v0.board[p as int] is None));
            assert forall|m: int| 0 <= m < sm.len() implies !ot.contains(#[trigger] sm[m]) by {
                if ot.contains(sm[m]) {
                    let w = choose|w: int| 0 <= w < ot.len() && ot[w] == sm[m];
                    assert(v0.chain(ot[w] as int).color != color);
                }
            }
            assert forall|m: int| 0 <= m < ot.len() implies !sm.contains(#[trigger] ot[m]) by {
                if sm.contains(ot[m]) {
                    let w = choose|w: int| 0 <= w < sm.len() && sm[w] == ot[m];
                    assert(v0.chain(sm[w] as int).color == color);
                }
            }
            assert(ready_to_place(v0, v1, p as int, color, sm, ot, lb));
        }
        let ns = idx4_len(&same);
        let lib_slice = idx4_slice(&libs);
        let r = if ns == 0 {
            self.place_alone(p, color, lib_slice, Ghost(v0), Ghost(sm), Ghost(ot))
        } else if ns == 1 {
            let s0 = idx4_get(&same, 0);
            self.place_on_one(s0, p, color, lib_slice, Ghost(v0), Ghost(sm), Ghost(ot))
        } else {
            self.place_on_many(&same, p, color, lib_slice, Ghost(v0), Ghost(ot))
        };
        let ghost vf = self@;
        proof {
            lemma_push_result(v0, vf, p as int, color, sm, ot, lb, r as int);
            lemma_push_dead(v0, v1, vf, p as int, color, sm, ot, lb, r as int, idx4_items(dead));
        }
        self.zobrist_hash = self.zobrist_hash ^ index_zobrist(p, color);
        proof {
            lemma_pos_hash_update(v0.pos(), p as int, Some(color), 361);
            lemma_xor_swap(v0.hash, 0u64, 0u64);
            lemma_hash_only(self@, vf);
            assert(self@.chain_of(p as int) == vf.chain_of(p as int));
            lemma_push_v0(v0, v1, vf, p as int, color, sm, ot, lb, r as int, idx4_items(dead));
            assert(chain_points(self@, r as int) =~= chain_points(vf, r as int));
        }
        (dead, r)
    }
}

/// The position with the points of `l` emptied.
pub open spec fn emptied(pos: Seq<Option<Color>>, l: Seq<int>) -> Seq<Option<Color>> {
    Seq::new(pos.len(), |i: int| if l.contains(i) {
        None
    } else {
        pos[i]
    })
}

impl Goban {
    /// The chains (each once) that occupy a neighbor of `index`.
    pub fn get_connected_groups_idx(&self, index: BoardIdx) -> (r: ArrayVec<GroupIdx, 4>)
        requires
            self@.board.len() == 361,
            self@.size.0 <= 19,
            self@.size.1 <= 19,
            index < self@.area(),
        ensures
            idx4_items(r).no_duplicates(),
            forall|t: usize| #[trigger] idx4_items(r).contains(t) == (t < 65536 && self@.touches(t as int, index as int)),
    {
        proof {
            lemma_area(self.size);
            lemma_nb_list(self.size, index as int);
        }
        let nbrs = neighbors_idx(self.size, index);
        let ghost l = nb_list(self@.size, index as int);
        let n = idx4_len(&nbrs);
        let mut res = idx4_new();
        let mut k: usize = 0;
        while k < n
            invariant
                self@.board.len() == 361,
                0 <= index < self@.area() <= 361,
                l == nb_list(self@.size, index as int),
                idx4_items(nbrs) == l,
                n == l.len(),
                0 <= k <= n,
                n <= 4,
                forall|m: int| 0 <= m < l.len() ==> adjacent(self@.size, index as int, #[trigger] l[m] as int),
                forall|m: int| 0 <= m < l.len() ==> 0 <= #[trigger] l[m] < self@.area(),
                idx4_items(res).no_duplicates(),
                idx4_items(res).len() <= k,
                forall|t: usize| #[trigger] idx4_items(res).contains(t) == (exists|m: int| 0 <= m < k && self@.board[#[trigger] l[m] as int] == Some(
                    t as u16) && t < 65536),
            decreases n - k,
        {
            let q = idx4_get(&nbrs, k);
            let ghost prev = idx4_items(res);
            match self.board[q] {
                Some(ci) => {
                    let ci = ci as usize;
                    if !idx4_contains(&res, ci) {
                        idx4_push(&mut res, ci);
                    }
                },
                None => {},
            }
            proof {
                broadcast use vstd::seq_lib::lemma_seq_contains_after_push;
                assert forall|t: usize| #[trigger] idx4_items(res).contains(t) == (exists|m: int| 0 <= m < k + 1 && self@.board[#[trigger] l[m] as int]
                    == Some(t as u16) && t < 65536) by {
                    if exists|m: int| 0 <= m < k + 1 && self@.board[#[trigger] l[m] as int] == Some(t as u16) && t < 65536 {
                        let m = choose|m: int| 0 <= m < k + 1 && self@.board[#[trigger] l[m] as int] == Some(t as u16) && t < 65536;
                        if m < k {
                            assert(prev.contains(t));
                        }
                    }
                    if prev.contains(t) {
                        let m = choose|m: int| 0 <= m < k && self@.board[#[trigger] l[m] as int] == Some(t as u16) && t < 65536;
                        assert(exists|m2: int| 0 <= m2 < k + 1 && self@.board[#[trigger] l[m2] as int] == Some(t as u16) && t < 65536);
                    }
                    if idx4_items(res).contains(t) && !prev.contains(t) {
                        assert(self@.board[l[k as int] as int] == Some(t as u16));
                    }
                }
            }
            k += 1;
        }
        proof {
            assert forall|t: usize| #[trigger] idx4_items(res).contains(t) == (t < 65536 && self@.touches(t as int, index as int)) by {
                if idx4_items(res).contains(t) {
                    let m = choose|m: int| 0 <= m < n && self@.board[#[trigger] l[m] as int] == Some(t as u16) && t < 65536;
                    let d = choose|d: int| 0 <= d < 4 && nb_valid(self@.size, index as int, d) && #[trigger] nb(self@.size, index as int, d) == l[m] as int;
                    assert(self@.board[nb(self@.size, index as int, d)] == Some(t as u16));
                }
                if t < 65536 && self@.touches(t as int, index as int) {
                    let d = choose|d: int| 0 <= d < 4 && nb_valid(self@.size, index as int, d) && #[trigger] self@.board[nb(self@.size, index as int, d)]
                        == Some(t as u16);
                    lemma_nb(self@.size, index as int, d);
                    assert(adjacent(self@.size, index as int, nb(self@.size, index as int, d)));
                    assert(l.contains(nb(self@.size, index as int, d) as usize));
                    let m = choose|m: int| 0 <= m < l.len() && l[m] == nb(self@.size, index as int, d) as usize;
                    assert(self@.board[l[m] as int] == Some(t as u16));
                }
            }
        }
        res
    }
}

/// The position with the first `k` points of `l` emptied.
pub open spec fn emptied_prefix(pos: Seq<Option<Color>>, l: Seq<int>, k: int) -> Seq<Option<Color>> {
    Seq::new(361, |i: int| if prefix_has(l, k, i) {
        None
    } else {
        pos[i]
    })
}

/// The goban `vf` is `v0` without chain `r`: its points are empty, its slot is free, and
/// each other chain gained the emptied points that it touches as liberties.
pub open spec fn removed(v0: GobanView, vf: GobanView, r: int) -> bool {
    &&& vf.size == v0.size
    &&& vf.next_stone == v0.next_stone
    &&& vf.members == v0.members
    &&& vf.chains.len() == v0.chains.len()
    &&& vf.board.len() == 361
    &&& forall|i: int| 0 <= i < 361 ==> #[trigger] vf.board[i] == (if v0.board[i] == Some(r as u16) {
        None
    } else {
        v0.board[i]
    })
    &&& vf.chains[r] is None
    &&& forall|c: int| 0 <= c < v0.chains.len() && c != r ==> same_but_libs(v0.chains[c], #[trigger] vf.chains[c])
    &&& forall|c: int, j: int| 0 <= c < v0.chains.len() && c != r && vf.chains[c] is Some && 0 <= j < 384 ==> #[trigger] lib_has(
        vf.chains[c].unwrap().liberties, j) == (lib_has(v0.chains[c].unwrap().liberties, j) || (v0.board[j] == Some(r as u16) && v0.touches(c, j)))
    &&& vf.hash == pos_hash(vf.pos(), 361)
}

/// Removing a chain leaves a well-formed goban whose position lost the chain's stones.
proof fn lemma_remove_result(v0: GobanView, vf: GobanView, r: int)
    requires
        v0.wf(),
        v0.chain_live(r),
        removed(v0, vf, r),
    ensures
        vf.wf(),
        vf.pos() == Seq::new(361, |i: int| if v0.chain_of(i) == Some(r as u16) {
            None
        } else {
            v0.pos()[i]
        }),
{
    lemma_area(v0.size);
    assert(v0.struct_ok());
    assert forall|i: int| 0 <= i < 361 implies #[trigger] vf.color_at(i) == (if v0.chain_of(i) == Some(r as u16) {
        None
    } else {
        v0.color_at(i)
    }) by {
        if vf.board[i] is Some {
            assert(v0.board_entry_ok(i));
            assert(same_but_libs(v0.chains[v0.board[i].unwrap() as int], vf.chains[v0.board[i].unwrap() as int]));
        }
    }
    assert(vf.pos() =~= Seq::new(361, |i: int| if v0.chain_of(i) == Some(r as u16) {
        None
    } else {
        v0.pos()[i]
    }));
    // structure
    assert forall|c: int| 0 <= c < vf.chains.len() && #[trigger] vf.chains[c] is Some implies vf.chain_list_ok(c) by {
        assert(c != r);
        assert(same_but_libs(v0.chains[c], vf.chains[c]));
        assert(v0.chain_list_ok(c));
        let lc = v0.members[c];
        assert forall|m: int| 0 <= m < lc.len() implies {
            &&& 0 <= #[trigger] lc[m] < area(vf.size)
            &&& vf.board[lc[m]] == Some(c as u16)
            &&& vf.next_stone[lc[m]] as int == succ(lc, m)
        } by {
            assert(v0.board[lc[m]] == Some(c as u16));
        }
    }
    assert forall|i: int| 0 <= i < 361 && #[trigger] vf.board[i] is Some implies vf.board_entry_ok(i) by {
        assert(v0.board_entry_ok(i));
        assert(same_but_libs(v0.chains[v0.board[i].unwrap() as int], vf.chains[v0.board[i].unwrap() as int]));
    }
    assert(vf.struct_ok());
    // liberties
    assert forall|c: int, j: int| 0 <= c < vf.chains.len() && vf.chains[c] is Some && 0 <= j < 384 implies (#[trigger] lib_has(
        vf.chains[c].unwrap().liberties, j) == #[trigger] vf.is_lib(c, j)) by {
        assert(c != r);
        assert(same_but_libs(v0.chains[c], vf.chains[c]));
        assert(lib_has(v0.chains[c].unwrap().liberties, j) == v0.is_lib(c, j));
        if vf.touches(c, j) {
            let d = choose|d: int| 0 <= d < 4 && nb_valid(vf.size, j, d) && #[trigger] vf.board[nb(vf.size, j, d)] == Some(c as u16);
            lemma_nb(vf.size, j, d);
            assert(v0.board[nb(v0.size, j, d)] == Some(c as u16));
        }
        if v0.touches(c, j) {
            let d = choose|d: int| 0 <= d < 4 && nb_valid(v0.size, j, d) && #[trigger] v0.board[nb(v0.size, j, d)] == Some(c as u16);
            lemma_nb(v0.size, j, d);
            assert(vf.board[nb(vf.size, j, d)] == Some(c as u16));
        }
        if 0 <= j < 361 && v0.board[j] == Some(r as u16) {
            assert(v0.board_entry_ok(j));
        }
    }
    // adjacent stones of one color
    assert forall|i: int, d: int| 0 <= d < 4 && #[trigger] nb_valid(vf.size, i, d) && vf.board[i] is Some && vf.board[nb(vf.size, i, d)] is Some
            && vf.color_at(i) == vf.color_at(nb(vf.size, i, d)) implies vf.board[i] == vf.board[nb(vf.size, i, d)] by {
        lemma_nb(vf.size, i, d);
        assert(nb_valid(v0.size, i, d));
    }
}

impl Goban {
    /// Gives the liberty `q` to each chain of `nbs` but `r`.
    #[verifier::spinoff_prover]
    fn give_liberty(&mut self, nbs: &ArrayVec<GroupIdx, 4>, q: BoardIdx, r: GroupIdx)
        requires
            q < 384,
            old(self)@.chains.len() <= 361,
            idx4_items(*nbs).no_duplicates(),
            forall|m: int| 0 <= m < idx4_items(*nbs).len() && #[trigger] idx4_items(*nbs)[m] != r ==> idx4_items(*nbs)[m] < old(self)@.chains.len()
                && old(self)@.chains[idx4_items(*nbs)[m] as int] is Some && !lib_has(old(self)@.chains[idx4_items(*nbs)[m] as int].unwrap().liberties,
                q as int),
        ensures
            final(self)@.board == old(self)@.board,
            final(self)@.next_stone == old(self)@.next_stone,
            final(self)@.members == old(self)@.members,
            final(self)@.size == old(self)@.size,
            final(self)@.hash == old(self)@.hash,
            final(self)@.chains.len() == old(self)@.chains.len(),
            forall|c: int| 0 <= c < old(self)@.chains.len() ==> same_but_libs(old(self)@.chains[c], #[trigger] final(self)@.chains[c]),
            forall|c: int| 0 <= c < old(self)@.chains.len() && (c == r || !idx4_items(*nbs).contains(c as usize)) ==> #[trigger] final(self)@.chains[c]
                == old(self)@.chains[c],
            forall|c: int, j: int| 0 <= c < old(self)@.chains.len() && final(self)@.chains[c] is Some && 0 <= j < 384 ==> #[trigger] lib_has(
                final(self)@.chains[c].unwrap().liberties, j) == (lib_has(old(self)@.chains[c].unwrap().liberties, j) || (j == q
                && idx4_items(*nbs).contains(c as usize) && c != r)),
    {
        let ghost v0 = self@;
        let ghost nl = idx4_items(*nbs);
        let n = idx4_len(nbs);
        let mut k: usize = 0;
        while k < n
            invariant
                q < 384,
                v0.chains.len() <= 361,
                nl == idx4_items(*nbs),
                n == nl.len(),
                0 <= k <= n,
                nl.no_duplicates(),
                forall|m: int| 0 <= m < nl.len() && #[trigger] nl[m] != r ==> nl[m] < v0.chains.len() && v0.chains[nl[m] as int] is Some
                    && !lib_has(v0.chains[nl[m] as int].unwrap().liberties, q as int),
                self@.board == v0.board,
                self@.next_stone == v0.next_stone,
                self@.members == v0.members,
                self@.size == v0.size,
                self@.hash == v0.hash,
                self@.chains.len() == v0.chains.len(),
                forall|c: int| 0 <= c < v0.chains.len() ==> same_but_libs(v0.chains[c], #[trigger] self@.chains[c]),
                forall|c: int| 0 <= c < v0.chains.len() && (c == r || !nl.subrange(0, k as int).contains(c as usize)) ==> #[trigger] self@.chains[c]
                    == v0.chains[c],
                forall|c: int, j: int| 0 <= c < v0.chains.len() && self@.chains[c] is Some && 0 <= j < 384 ==> #[trigger] lib_has(
                    self@.chains[c].unwrap().liberties, j) == (lib_has(v0.chains[c].unwrap().liberties, j) || (j == q
                    && nl.subrange(0, k as int).contains(c as usize) && c != r)),
            decreases n - k,
        {
            let t = idx4_get(nbs, k);
            let ghost nk = nl.subrange(0, k as int);
            let ghost nk1 = nl.subrange(0, k + 1);
            proof {
                assert(nk1 == nk.push(t));
                assert(!nk.contains(t)) by {
                    if nk.contains(t) {
                        let m = choose|m: int| 0 <= m < nk.len() && nk[m] == t;
                        assert(nl[m] == nl[k as int]);
                    }
                }
            }
            if t != r {
                let mut ch = self.chains[t].unwrap();
                ch.add_liberty(q);
                self.chains.set(t, Some(ch));
            }
            proof {
                broadcast use vstd::seq_lib::lemma_seq_contains_after_push;
                assert forall|c: int| 0 <= c < v0.chains.len() implies same_but_libs(v0.chains[c], #[trigger] self@.chains[c]) by {}
                assert forall|c: int| 0 <= c < v0.chains.len() && (c == r || !nk1.contains(c as usize)) implies #[trigger] self@.chains[c]
                    == v0.chains[c] by {
                    assert(nk.push(t).contains(c as usize) == (t == c as usize || nk.contains(c as usize)));
                }
                assert forall|c: int, j: int| 0 <= c < v0.chains.len() && self@.chains[c] is Some && 0 <= j < 384 implies #[trigger] lib_has(
                    self@.chains[c].unwrap().liberties, j) == (lib_has(v0.chains[c].unwrap().liberties, j) || (j == q
                    && nk1.contains(c as usize) && c != r)) by {
                    assert(nk.push(t).contains(c as usize) == (t == c as usize || nk.contains(c as usize)));
                }
            }
            k += 1;
        }
        proof {
            assert(nl.subrange(0, n as int) == nl);
        }
    }
}

/// One step of `remove_chain`: emptying the `k`-th stone `q` of chain `r`.
proof fn lemma_remove_step(v0: GobanView, v: GobanView, w: GobanView, r: int, l: Seq<int>, k: int, q: int, key: u64)
    requires
        v0.wf(),
        v0.chain_live(r),
        l == v0.members[r],
        0 <= k < l.len(),
        q == l[k],
        key == zobrist_key(q, v0.chain(r).color),
        v.hash == pos_hash(emptied_prefix(v0.pos(), l, k), 361),
        w.hash == v.hash ^ key,
    ensures
        w.hash == pos_hash(emptied_prefix(v0.pos(), l, k + 1), 361),
{
    lemma_area(v0.size);
    assert(v0.chain_list_ok(r));
    let p0 = emptied_prefix(v0.pos(), l, k);
    assert(!prefix_has(l, k, q)) by {
        if prefix_has(l, k, q) {
            let m = choose|m: int| 0 <= m < k && #[trigger] l[m] == q;
        }
    }
    assert(v0.board_entry_ok(q));
    assert(p0[q] == Some(v0.chain(r).color));
    assert(emptied_prefix(v0.pos(), l, k + 1) =~= p0.update(q, None)) by {
        assert forall|i: int| 0 <= i < 361 implies prefix_has(l, k + 1, i) == (prefix_has(l, k, i) || i == q) by {
            if prefix_has(l, k + 1, i) {
                let m = choose|m: int| 0 <= m < k + 1 && #[trigger] l[m] == i;
                if m < k {
                    assert(prefix_has(l, k, i));
                }
            }
            if prefix_has(l, k, i) {
                let m = choose|m: int| 0 <= m < k && #[trigger] l[m] == i;
                assert(prefix_has(l, k + 1, i));
            }
            if i == q {
                assert(l[k] == i);
            }
        }
    }
    lemma_pos_hash_update(p0, q, None, 361);
    lemma_xor_swap(v.hash ^ key, 0u64, 0u64);
}

impl Goban {
    /// Removes chain `ren_to_remove_idx` from the goban: its points become empty and
    /// liberties of the adjacent chains, and its slot is freed.
    #[verifier::spinoff_prover]
    #[verifier::rlimit(50)]
    pub fn remove_chain(&mut self, ren_to_remove_idx: GroupIdx)
        requires
            old(self)@.wf(),
            old(self)@.chain_live(ren_to_remove_idx as int),
        ensures
            final(self)@.wf(),
            removed(old(self)@, final(self)@, ren_to_remove_idx as int),
            final(self)@.pos() == Seq::new(361, |i: int| if old(self)@.chain_of(i) == Some(ren_to_remove_idx as u16) {
                None
            } else {
                old(self)@.pos()[i]
            }),
    {
        let ghost v0 = self@;
        let r = ren_to_remove_idx;
        let ghost l = v0.members[r as int];
        proof {
            lemma_area(v0.size);
            assert(v0.chain_list_ok(r as int));
            lemma_pos_hash_ext(emptied_prefix(v0.pos(), l, 0), v0.pos(), 361);
        }
        let chain = self.chains[r].unwrap();
        let color = chain.color;
        let origin = chain.origin as usize;
        let mut cur: usize = origin;
        let ghost mut k: int = 0;
        loop
            invariant_except_break
                0 <= k < l.len(),
                cur as int == l[k],
                forall|i: int| 0 <= i < 361 ==> #[trigger] self@.board[i] == (if prefix_has(l, k, i) {
                    None
                } else {
                    v0.board[i]
                }),
                forall|c: int, j: int| 0 <= c < v0.chains.len() && c != r && self@.chains[c] is Some && 0 <= j < 384 ==> #[trigger] lib_has(
                    self@.chains[c].unwrap().liberties, j) == (lib_has(v0.chains[c].unwrap().liberties, j) || (prefix_has(l, k, j) && v0.touches(c, j))),
                self@.hash == pos_hash(emptied_prefix(v0.pos(), l, k), 361),
            invariant
                v0.wf(),
                v0.chain_live(r as int),
                v0.area() <= 361,
                l == v0.members[r as int],
                v0.chain_list_ok(r as int),
                origin as int == l[0],
                color == v0.chain(r as int).color,
                self@.size == v0.size,
                self@.next_stone == v0.next_stone,
                self@.members == v0.members,
                self@.chains.len() == v0.chains.len(),
                self@.board.len() == 361,
                forall|c: int| 0 <= c < v0.chains.len() ==> same_but_libs(v0.chains[c], #[trigger] self@.chains[c]),
                self@.chains[r as int] == v0.chains[r as int],
            ensures
                forall|i: int| 0 <= i < 361 ==> #[trigger] self@.board[i] == (if prefix_has(l, l.len() as int, i) {
                    None
                } else {
                    v0.board[i]
                }),
                forall|c: int, j: int| 0 <= c < v0.chains.len() && c != r && self@.chains[c] is Some && 0 <= j < 384 ==> #[trigger] lib_has(
                    self@.chains[c].unwrap().liberties, j) == (lib_has(v0.chains[c].unwrap().liberties, j) || (prefix_has(l, l.len() as int, j)
                    && v0.touches(c, j))),
                self@.hash == pos_hash(emptied_prefix(v0.pos(), l, l.len() as int), 361),
            decreases l.len() - k,
        {
            let ghost vb = self@;
            proof {
                assert(!prefix_has(l, k, cur as int)) by {
                    if prefix_has(l, k, cur as int) {
                        let m = choose|m: int| 0 <= m < k && #[trigger] l[m] == cur as int;
                    }
                }
                assert(self@.board[cur as int] == Some(r as u16));
            }
            let nbs = self.get_connected_groups_idx(cur);
            proof {
                assert forall|m: int| 0 <= m < idx4_items(nbs).len() && #[trigger] idx4_items(nbs)[m] != r implies idx4_items(nbs)[m] < self@.chains.len()
                    && self@.chains[idx4_items(nbs)[m] as int] is Some && !lib_has(self@.chains[idx4_items(nbs)[m] as int].unwrap().liberties,
                    cur as int) by {
                    let t = idx4_items(nbs)[m];
                    assert(idx4_items(nbs).contains(t));
                    let d = choose|d: int| 0 <= d < 4 && nb_valid(self@.size, cur as int, d) && #[trigger] self@.board[nb(self@.size, cur as int, d)]
                        == Some(t as u16);
                    lemma_nb(self@.size, cur as int, d);
                    let x = nb(self@.size, cur as int, d);
                    assert(v0.board[x] == Some(t as u16));
                    assert(v0.board_entry_ok(x));
                    assert(same_but_libs(v0.chains[t as int], self@.chains[t as int]));
                    assert(lib_has(v0.chains[t as int].unwrap().liberties, cur as int) == v0.is_lib(t as int, cur as int));
                }
            }
            self.give_liberty(&nbs, cur, r);
            let key = index_zobrist(cur, color);
            let ghost vh = self@;
            self.zobrist_hash = self.zobrist_hash ^ key;
            proof {
                lemma_remove_step(v0, vh, self@, r as int, l, k, cur as int, key);
            }
            self.board.set(cur, None);
            proof {
                let v = self@;
                assert forall|i: int| 0 <= i < 361 implies #[trigger] v.board[i] == (if prefix_has(l, k + 1, i) {
                    None
                } else {
                    v0.board[i]
                }) by {
                    if prefix_has(l, k + 1, i) {
                        let m = choose|m: int| 0 <= m < k + 1 && #[trigger] l[m] == i;
                        if m < k {
                            assert(prefix_has(l, k, i));
                        }
                    }
                    if prefix_has(l, k, i) {
                        let m = choose|m: int| 0 <= m < k && #[trigger] l[m] == i;
                        assert(prefix_has(l, k + 1, i));
                    }
                    if i == cur as int {
                        assert(l[k] == i);
                    }
                }
                assert forall|c: int, j: int| 0 <= c < v0.chains.len() && c != r && v.chains[c] is Some && 0 <= j < 384 implies #[trigger] lib_has(
                    v.chains[c].unwrap().liberties, j) == (lib_has(v0.chains[c].unwrap().liberties, j) || (prefix_has(l, k + 1, j) && v0.touches(c, j))) by {
                    assert(lib_has(vb.chains[c].unwrap().liberties, j) == (lib_has(v0.chains[c].unwrap().liberties, j) || (prefix_has(l, k, j)
                        && v0.touches(c, j))));
                    if prefix_has(l, k + 1, j) {
                        let m = choose|m: int| 0 <= m < k + 1 && #[trigger] l[m] == j;
                        if m < k {
                            assert(prefix_has(l, k, j));
                        }
                    }
                    if prefix_has(l, k, j) {
                        let m = choose|m: int| 0 <= m < k && #[trigger] l[m] == j;
                        assert(prefix_has(l, k + 1, j));
                    }
                    if j == cur as int {
                        assert(l[k] == j);
                        // the chains touching `cur` are those of `nbs`
                        assert(c < 65536);
                        if v0.touches(c, j) {
                            let d = choose|d: int| 0 <= d < 4 && nb_valid(v0.size, j, d) && #[trigger] v0.board[nb(v0.size, j, d)] == Some(c as u16);
                            lemma_nb(v0.size, j, d);
                            assert(vb.board[nb(vb.size, j, d)] == Some(c as u16));
                            assert(vb.touches(c, j));
                            assert(idx4_items(nbs).contains(c as usize));
                        }
                        if idx4_items(nbs).contains(c as usize) {
                            assert(vb.touches(c, j));
                            let d = choose|d: int| 0 <= d < 4 && nb_valid(vb.size, j, d) && #[trigger] vb.board[nb(vb.size, j, d)] == Some(c as u16);
                            lemma_nb(v0.size, j, d);
                            assert(v0.board[nb(v0.size, j, d)] == Some(c as u16));
                        }
                    }
                }
            }
            let nxt = self.next_stone[cur] as usize;
            if nxt == origin {
                proof {
                    assert(succ(l, k) == l[0]);
                    if k + 1 < l.len() {
                        assert(l[k + 1] == l[0]);
                    }
                    assert(k + 1 == l.len());
                }
                break;
            }
            proof {
                if k + 1 == l.len() {
                    assert(succ(l, k) == l[0]);
                }
                k = k + 1;
            }
            cur = nxt;
        }
        self.chains.set(r, None);
        proof {
            let vf = self@;
            assert forall|i: int| 0 <= i < 361 implies prefix_has(l, l.len() as int, i) == (v0.board[i] == Some(r as u16)) by {
                if prefix_has(l, l.len() as int, i) {
                    let m = choose|m: int| 0 <= m < l.len() && #[trigger] l[m] == i;
                }
                if v0.board[i] == Some(r as u16) {
                    assert(v0.board_entry_ok(i));
                    let m = choose|m: int| 0 <= m < l.len() && l[m] == i;
                    assert(prefix_has(l, l.len() as int, i));
                }
            }
            assert forall|c: int| 0 <= c < v0.chains.len() && c != r implies same_but_libs(v0.chains[c], #[trigger] vf.chains[c]) by {}
            assert forall|i: int| 0 <= i < 361 implies #[trigger] vf.color_at(i) == emptied_prefix(v0.pos(), l, l.len() as int)[i] by {
                if vf.board[i] is Some {
                    assert(v0.board_entry_ok(i));
                    assert(same_but_libs(v0.chains[v0.board[i].unwrap() as int], vf.chains[v0.board[i].unwrap() as int]));
                }
            }
            assert(vf.pos() =~= emptied_prefix(v0.pos(), l, l.len() as int));
            assert(removed(v0, vf, r as int));
            lemma_remove_result(v0, vf, r as int);
        }
    }
}

/// True when board entry `b` is one of the chains of `d`.
pub open spec fn in_list(b: Option<u16>, d: Seq<usize>) -> bool {
    b is Some && d.contains(b.unwrap() as usize)
}

/// The points of chain `c`.
pub open spec fn chain_points(v: GobanView, c: int) -> Set<int> {
    Set::new(|i: int| 0 <= i < 361 && v.board[i] == Some(c as u16))
}

/// The stones of `color` that position `a` has and position `b` lost.
pub open spec fn lost(a: Seq<Option<Color>>, b: Seq<Option<Color>>, color: Color) -> Set<int> {
    Set::new(|i: int| 0 <= i < 361 && a[i] == Some(color) && b[i] is None)
}

/// The position of `v` without the chains of `d`.
pub open spec fn without(v: GobanView, d: Seq<usize>) -> Seq<Option<Color>> {
    Seq::new(361, |i: int| if in_list(v.board[i], d) {
        None
    } else {
        v.pos()[i]
    })
}

/// Some point of `pts` has an empty neighbor: the stones of `pts` have a liberty.
pub open spec fn breathes(pos: Seq<Option<Color>>, size: Size, pts: Set<int>) -> bool {
    exists|i: int, j: int| #[trigger] pts.contains(i) && #[trigger] adjacent(size, i, j) && pos[j] is None
}

/// A chain has as many points as stones.
proof fn lemma_chain_points(v: GobanView, c: int)
    requires
        v.struct_ok(),
        v.chain_live(c),
    ensures
        chain_points(v, c) == v.members[c].to_set(),
        chain_points(v, c).finite(),
        chain_points(v, c).len() == v.chain(c).num_stones,
{
    assert(v.chain_list_ok(c));
    let l = v.members[c];
    lemma_area(v.size);
    assert forall|i: int| #[trigger] chain_points(v, c).contains(i) == l.to_set().contains(i) by {
        if chain_points(v, c).contains(i) {
            assert(v.board_entry_ok(i));
        }
        if l.to_set().contains(i) {
            let m = choose|m: int| 0 <= m < l.len() && l[m] == i;
        }
    }
    assert(chain_points(v, c) =~= l.to_set());
    l.unique_seq_to_set();
    vstd::seq_lib::seq_to_set_is_finite(l);
}

/// A set of board points has at most 361 elements.
pub proof fn lemma_points_bound(s: Set<int>)
    requires
        forall|i: int| #[trigger] s.contains(i) ==> 0 <= i < 361,
    ensures
        s.finite(),
        s.len() <= 361,
{
    let r = set_int_range(0, 361);
    lemma_int_range(0, 361);
    assert(s.subset_of(r));
    vstd::set_lib::lemma_len_subset(s, r);
}

/// Losses add up along a sequence of removals.
proof fn lemma_lost_step(x: Seq<Option<Color>>, b: Seq<Option<Color>>, c: Seq<Option<Color>>, col: Color)
    requires
        x.len() == 361,
        b.len() == 361,
        c.len() == 361,
        forall|i: int| 0 <= i < 361 ==> #[trigger] b[i] is None || b[i] == x[i],
        forall|i: int| 0 <= i < 361 ==> #[trigger] c[i] is None || c[i] == b[i],
    ensures
        lost(x, c, col) == lost(x, b, col) + lost(b, c, col),
        lost(x, b, col).disjoint(lost(b, c, col)),
        lost(x, c, col).finite(),
        lost(x, c, col).len() == lost(x, b, col).len() + lost(b, c, col).len(),
        lost(x, c, col).len() <= 361,
{
    assert(lost(x, c, col) =~= lost(x, b, col) + lost(b, c, col)) by {
        assert forall|i: int| lost(x, c, col).contains(i) implies (lost(x, b, col) + lost(b, c, col)).contains(i) by {
            assert(b[i] is None || b[i] == x[i]);
        }
        assert forall|i: int| (lost(x, b, col) + lost(b, c, col)).contains(i) implies lost(x, c, col).contains(i) by {
            assert(b[i] is None || b[i] == x[i]);
            assert(c[i] is None || c[i] == b[i]);
        }
    }
    lemma_points_bound(lost(x, b, col));
    lemma_points_bound(lost(b, c, col));
    lemma_points_bound(lost(x, c, col));
    vstd::set_lib::lemma_set_disjoint_lens(lost(x, b, col), lost(b, c, col));
}

/// Removing chain `r` loses exactly its stones.
proof fn lemma_lost_chain(v: GobanView, w: Seq<Option<Color>>, r: int, col: Color)
    requires
        v.wf(),
        v.chain_live(r),
        w == Seq::new(361, |i: int| if v.chain_of(i) == Some(r as u16) {
            None
        } else {
            v.pos()[i]
        }),
    ensures
        lost(v.pos(), w, col) == (if v.chain(r).color == col {
            chain_points(v, r)
        } else {
            Set::empty()
        }),
        lost(v.pos(), w, col).len() == (if v.chain(r).color == col {
            v.chain(r).num_stones as nat
        } else {
            0
        }),
        forall|i: int| 0 <= i < 361 ==> #[trigger] w[i] is None || w[i] == v.pos()[i],
{
    lemma_chain_points(v, r);
    if v.chain(r).color == col {
        assert forall|i: int| lost(v.pos(), w, col).contains(i) == chain_points(v, r).contains(i) by {
            if chain_points(v, r).contains(i) {
                assert(v.board_entry_ok(i));
            }
        }
        assert(lost(v.pos(), w, col) =~= chain_points(v, r));
    } else {
        assert forall|i: int| !lost(v.pos(), w, col).contains(i) by {
            if 0 <= i < 361 && v.chain_of(i) == Some(r as u16) {
                assert(v.board_entry_ok(i));
            }
        }
        assert(lost(v.pos(), w, col) =~= Set::empty());
    }
}

/// A chain has no liberty exactly when none of its stones has an empty neighbor.
proof fn lemma_breathes(v: GobanView, c: int)
    requires
        v.wf(),
        v.chain_live(c),
    ensures
        lib_empty(v.chain(c).liberties) == !breathes(v.pos(), v.size, chain_points(v, c)),
{
    lemma_area(v.size);
    v.lemma_wf();
    if !lib_empty(v.chain(c).liberties) {
        let j = choose|j: int| 0 <= j < 384 && lib_has(v.chain(c).liberties, j);
        assert(lib_has(v.chains[c].unwrap().liberties, j) == v.is_lib(c, j));
        let d = choose|d: int| 0 <= d < 4 && nb_valid(v.size, j, d) && #[trigger] v.board[nb(v.size, j, d)] == Some(c as u16);
        lemma_nb(v.size, j, d);
        let i = nb(v.size, j, d);
        assert(chain_points(v, c).contains(i));
        assert(adjacent(v.size, i, j)) by {
            assert(nb(v.size, i, opp(d)) == j);
        }
        assert(v.pos()[j] is None);
    }
    if breathes(v.pos(), v.size, chain_points(v, c)) {
        let (i, j) = choose|i: int, j: int| #[trigger] chain_points(v, c).contains(i) && #[trigger] adjacent(v.size, i, j) && v.pos()[j] is None;
        let d = choose|d: int| 0 <= d < 4 && nb_valid(v.size, i, d) && #[trigger] nb(v.size, i, d) == j;
        lemma_nb(v.size, i, d);
        assert(v.board[nb(v.size, j, opp(d))] == Some(c as u16));
        assert(v.touches(c, j));
        assert(lib_has(v.chains[c].unwrap().liberties, j) == v.is_lib(c, j));
    }
}

/// The chain `a` that just got a stone takes its own life: suicide is allowed and, once
/// the chains of `d` are gone, none of its stones has an empty neighbor.
pub open spec fn self_captured(v: GobanView, d: Seq<usize>, a: int, suicide_allowed: bool) -> bool {
    suicide_allowed && !breathes(without(v, d), v.size, chain_points(v, a))
}

/// The position once the chains of `d` are removed, and chain `a` too when it takes its own
/// life.
pub open spec fn captured_pos(v: GobanView, d: Seq<usize>, a: int, suicide_allowed: bool) -> Seq<Option<Color>> {
    if self_captured(v, d, a, suicide_allowed) {
        Seq::new(361, |i: int| if v.board[i] == Some(a as u16) {
            None
        } else {
            without(v, d)[i]
        })
    } else {
        without(v, d)
    }
}

/// The ko point after a capture: the point of the stone when exactly one chain of one stone
/// was captured and the added chain stays.
pub open spec fn ko_after(v: GobanView, d: Seq<usize>, a: int, suicide_allowed: bool) -> Option<Coord> {
    if !self_captured(v, d, a, suicide_allowed) && d.len() == 1 && v.chain(d[0] as int).num_stones == 1 {
        let o = v.chain(d[0] as int).origin as usize;
        Some(((o / v.size.1 as usize) as u8, (o % v.size.1 as usize) as u8))
    } else {
        None
    }
}

impl Goban {
    /// Removes the chains of `dead_groups_indices`, then, when `suicide_allowed`, the chain
    /// `added_group` if it has no liberty left. Returns the numbers of white and black stones
    /// removed, and the ko point.
    #[verifier::spinoff_prover]
    #[verifier::rlimit(50)]
    pub(crate) fn remove_captured_stones_aux(&mut self, suicide_allowed: bool, dead_groups_indices: &[GroupIdx], added_group: GroupIdx) -> (r: (
        (u32, u32),
        Option<Coord>,
    ))
        requires
            old(self)@.wf(),
            dead_groups_indices@.no_duplicates(),
            forall|k: int| 0 <= k < dead_groups_indices@.len() ==> old(self)@.chain_live(#[trigger] dead_groups_indices@[k] as int)
                && dead_groups_indices@[k] != added_group,
            old(self)@.chain_live(added_group as int),
        ensures
            final(self)@.wf(),
            final(self)@.size == old(self)@.size,
            final(self)@.pos() == captured_pos(old(self)@, dead_groups_indices@, added_group as int, suicide_allowed),
            r.0.0 == lost(old(self)@.pos(), final(self)@.pos(), Color::White).len(),
            r.0.1 == lost(old(self)@.pos(), final(self)@.pos(), Color::Black).len(),
            r.1 == ko_after(old(self)@, dead_groups_indices@, added_group as int, suicide_allowed),
    {
        let ghost v0 = self@;
        let ghost d = dead_groups_indices@;
        let n = dead_groups_indices.len();
        let only_one_ren_removed = n == 1;
        let mut white: u32 = 0;
        let mut black: u32 = 0;
        let mut ko_point: Option<Coord> = None;
        proof {
            lemma_area(v0.size);
            assert(without(v0, d.subrange(0, 0)) =~= v0.pos());
            assert(lost(v0.pos(), v0.pos(), Color::White) =~= Set::empty());
            assert(lost(v0.pos(), v0.pos(), Color::Black) =~= Set::empty());
        }
        let mut k: usize = 0;
        while k < n
            invariant
                v0.wf(),
                v0.area() <= 361,
                d == dead_groups_indices@,
                n == d.len(),
                0 <= k <= n,
                only_one_ren_removed == (n == 1),
                d.no_duplicates(),
                forall|m: int| 0 <= m < d.len() ==> v0.chain_live(#[trigger] d[m] as int) && d[m] != added_group,
                v0.chain_live(added_group as int),
                self@.wf(),
                self@.size == v0.size,
                self@.chains.len() == v0.chains.len(),
                forall|i: int| 0 <= i < 361 ==> #[trigger] self@.board[i] == (if in_list(v0.board[i], d.subrange(0, k as int)) {
                    None
                } else {
                    v0.board[i]
                }),
                forall|c: int| 0 <= c < v0.chains.len() && !d.subrange(0, k as int).contains(c as usize) ==> same_but_libs(v0.chains[c], #[trigger] self@.chains[c]),
                self@.pos() == without(v0, d.subrange(0, k as int)),
                white == lost(v0.pos(), self@.pos(), Color::White).len(),
                black == lost(v0.pos(), self@.pos(), Color::Black).len(),
                ko_point == (if k >= 1 && n == 1 && v0.chain(d[0] as int).num_stones == 1 {
                    Some(((v0.chain(d[0] as int).origin as usize / v0.size.1 as usize) as u8, (v0.chain(d[0] as int).origin as usize % v0.size.1 as usize) as u8))
                } else {
                    None
                }),
            decreases n - k,
        {
            let dk = dead_groups_indices[k];
            let ghost vb = self@;
            let ghost dkk = d.subrange(0, k as int);
            let ghost dk1 = d.subrange(0, k + 1);
            proof {
                assert(dk1 == dkk.push(dk));
                assert(!dkk.contains(dk)) by {
                    if dkk.contains(dk) {
                        let m = choose|m: int| 0 <= m < dkk.len() && dkk[m] == dk;
                        assert(d[m] == d[k as int]);
                    }
                }
                assert(v0.chain_live(d[k as int] as int));
                assert(same_but_libs(v0.chains[dk as int], vb.chains[dk as int]));
            }
            let ch = self.chains[dk].unwrap();
            if ch.num_stones == 1 && only_one_ren_removed {
                proof {
                    assert(v0.struct_ok());
                    assert(v0.chain_list_ok(dk as int));
                    lemma_idx_inv(v0.size, v0.chain(dk as int).origin as int);
                }
                ko_point = Some(one_to_2dim(self.size, ch.origin as usize));
            }
            self.remove_chain(dk);
            proof {
                broadcast use vstd::seq_lib::lemma_seq_contains_after_push;
                let va = self@;
                lemma_lost_chain(vb, va.pos(), dk as int, Color::White);
                lemma_lost_chain(vb, va.pos(), dk as int, Color::Black);
                assert forall|i: int| 0 <= i < 361 implies #[trigger] vb.pos()[i] is None || vb.pos()[i] == v0.pos()[i] by {
                    assert(vb.pos()[i] == without(v0, dkk)[i]);
                }
                lemma_lost_step(v0.pos(), vb.pos(), va.pos(), Color::White);
                lemma_lost_step(v0.pos(), vb.pos(), va.pos(), Color::Black);
                assert forall|i: int| 0 <= i < 361 implies #[trigger] va.board[i] == (if in_list(v0.board[i], dk1) {
                    None
                } else {
                    v0.board[i]
                }) by {
                    assert(dkk.push(dk).contains(dk));
                    if v0.board[i] is Some {
                        assert(dk1.contains(v0.board[i].unwrap() as usize) == (dk == v0.board[i].unwrap() as usize || dkk.contains(
                            v0.board[i].unwrap() as usize)));
                    }
                }
                assert forall|c: int| 0 <= c < v0.chains.len() && !dk1.contains(c as usize) implies same_but_libs(v0.chains[c], #[trigger] va.chains[c]) by {
                    assert(dk1.contains(c as usize) == (dk == c as usize || dkk.contains(c as usize)));
                }
                assert forall|i: int| 0 <= i < 361 implies #[trigger] va.pos()[i] == without(v0, dk1)[i] by {
                    assert(vb.pos()[i] == without(v0, dkk)[i]);
                    if v0.board[i] is Some {
                        assert(dk1.contains(v0.board[i].unwrap() as usize) == (dk == v0.board[i].unwrap() as usize || dkk.contains(
                            v0.board[i].unwrap() as usize)));
                    }
                }
                assert(va.pos() =~= without(v0, dk1));
                assert(ch.color == v0.chain(dk as int).color);
                assert(ch.num_stones == v0.chain(dk as int).num_stones);
            }
            match ch.color {
                Color::White => {
                    white = white + ch.num_stones as u32;
                },
                Color::Black => {
                    black = black + ch.num_stones as u32;
                },
            }
            k += 1;
        }
        let ghost vm = self@;
        proof {
            assert(d.subrange(0, n as int) == d);
            assert(same_but_libs(v0.chains[added_group as int], vm.chains[added_group as int])) by {
                assert(!d.contains(added_group)) by {
                    if d.contains(added_group) {
                        let m = choose|m: int| 0 <= m < d.len() && d[m] == added_group;
                    }
                }
            }
            assert(chain_points(vm, added_group as int) =~= chain_points(v0, added_group as int)) by {
                assert forall|i: int| 0 <= i < 361 implies (vm.board[i] == Some(added_group as u16)) == (v0.board[i] == Some(added_group as u16)) by {
                    if v0.board[i] == Some(added_group as u16) {
                        if d.contains(added_group) {
                            let m = choose|m: int| 0 <= m < d.len() && d[m] == added_group;
                        }
                    }
                }
            }
            lemma_breathes(vm, added_group as int);
        }
        let ach = self.chains[added_group].unwrap();
        if suicide_allowed && ach.is_dead() {
            self.remove_chain(added_group);
            proof {
                let va = self@;
                lemma_lost_chain(vm, va.pos(), added_group as int, Color::White);
                lemma_lost_chain(vm, va.pos(), added_group as int, Color::Black);
                assert forall|i: int| 0 <= i < 361 implies #[trigger] vm.pos()[i] is None || vm.pos()[i] == v0.pos()[i] by {
                    assert(vm.pos()[i] == without(v0, d)[i]);
                }
                lemma_lost_step(v0.pos(), vm.pos(), va.pos(), Color::White);
                lemma_lost_step(v0.pos(), vm.pos(), va.pos(), Color::Black);
                assert forall|i: int| 0 <= i < 361 implies #[trigger] va.pos()[i] == captured_pos(v0, d, added_group as int, suicide_allowed)[i] by {
                    assert(vm.board[i] == Some(added_group as u16) <==> v0.board[i] == Some(added_group as u16)) by {
                        assert(chain_points(vm, added_group as int).contains(i) == chain_points(v0, added_group as int).contains(i));
                    }
                }
                assert(va.pos() =~= captured_pos(v0, d, added_group as int, suicide_allowed));
            }
            match ach.color {
                Color::White => {
                    white = white + ach.num_stones as u32;
                },
                Color::Black => {
                    black = black + ach.num_stones as u32;
                },
            }
            ko_point = None;
        }
        ((white, black), ko_point)
    }
}

/// The coordinate of board index `i` on a goban of width `size.1`.
pub open spec fn coord_of(size: Size, i: int) -> Coord {
    (((i as usize) / (size.1 as usize)) as u8, ((i as usize) % (size.1 as usize)) as u8)
}

/// The stones among the first `n` board indices, in index order.
pub open spec fn stones_upto(pos: Seq<Option<Color>>, size: Size, n: int) -> Seq<Stone>
    decreases n,
{
    if n <= 0 {
        Seq::empty()
    } else {
        let prev = stones_upto(pos, size, n - 1);
        match pos[n - 1] {
            Some(c) => prev.push(Stone { coord: coord_of(size, n - 1), color: c }),
            None => prev,
        }
    }
}

/// The number of stones of `color` among the first `n` board indices.
pub open spec fn count_color(pos: Seq<Option<Color>>, color: Color, n: int) -> nat
    decreases n,
{
    if n <= 0 {
        0
    } else {
        count_color(pos, color, n - 1) + if pos[n - 1] == Some(color) {
            1nat
        } else {
            0nat
        }
    }
}

/// The empty neighbors of `i` among the first `n` of its neighbors, as coordinates.
pub open spec fn empty_neighbors(pos: Seq<Option<Color>>, size: Size, i: int, n: int) -> Seq<Coord>
    decreases n,
{
    if n <= 0 {
        Seq::empty()
    } else {
        let prev = empty_neighbors(pos, size, i, n - 1);
        let j = nb_list(size, i)[n - 1] as int;
        if pos[j] is None {
            prev.push(coord_of(size, j))
        } else {
            prev
        }
    }
}

/// The position after stones of `color` were put on each of `points`.
pub open spec fn with_stones(pos: Seq<Option<Color>>, size: Size, points: Seq<Coord>, color: Color) -> Seq<Option<Color>> {
    Seq::new(361, |i: int| if exists|k: int| 0 <= k < points.len() && spec_idx(size, #[trigger] points[k]) == i {
        Some(color)
    } else {
        pos[i]
    })
}

/// A count of at most `n` indices is at most `n`.
proof fn lemma_count_bound(pos: Seq<Option<Color>>, color: Color, n: int)
    requires
        0 <= n,
    ensures
        count_color(pos, color, n) <= n,
    decreases n,
{
    if n > 0 {
        lemma_count_bound(pos, color, n - 1);
    }
}

impl Goban {
    /// Puts a stone of `color` on the empty point `point`. The (0, 0) point is the top left.
    pub fn push(&mut self, point: Coord, color: Color)
        requires
            old(self)@.wf(),
            spec_coord_valid(old(self)@.size, point),
            old(self)@.pos()[spec_idx(old(self)@.size, point)] is None,
        ensures
            final(self)@.wf(),
            final(self)@.size == old(self)@.size,
            final(self)@.pos() == old(self)@.pos().update(spec_idx(old(self)@.size, point), Some(color)),
    {
        self.push_wth_feedback(point, color);
    }

    /// Puts a stone on its (empty) point.
    pub fn push_stone(&mut self, stone: Stone)
        requires
            old(self)@.wf(),
            spec_coord_valid(old(self)@.size, stone.coord),
            old(self)@.pos()[spec_idx(old(self)@.size, stone.coord)] is None,
        ensures
            final(self)@.wf(),
            final(self)@.size == old(self)@.size,
            final(self)@.pos() == old(self)@.pos().update(spec_idx(old(self)@.size, stone.coord), Some(stone.color)),
    {
        self.push(stone.coord, stone.color)
    }

    /// Puts stones of one color on empty, distinct points.
    pub fn push_many(&mut self, points: &[Coord], value: Color)
        requires
            old(self)@.wf(),
            forall|k: int| 0 <= k < points@.len() ==> spec_coord_valid(old(self)@.size, #[trigger] points@[k]),
            forall|k: int| 0 <= k < points@.len() ==> old(self)@.pos()[spec_idx(old(self)@.size, #[trigger] points@[k])] is None,
            forall|a: int, b: int| 0 <= a < b < points@.len() ==> #[trigger] points@[a] != #[trigger] points@[b],
        ensures
            final(self)@.wf(),
            final(self)@.size == old(self)@.size,
            final(self)@.pos() == with_stones(old(self)@.pos(), old(self)@.size, points@, value),
    {
        let ghost v0 = self@;
        proof {
            lemma_area(v0.size);
            assert(with_stones(v0.pos(), v0.size, points@.subrange(0, 0), value) =~= v0.pos());
        }
        let mut k: usize = 0;
        while k < points.len()
            invariant
                v0.wf(),
                v0.area() <= 361,
                0 <= k <= points@.len(),
                self@.wf(),
                self@.size == v0.size,
                forall|m: int| 0 <= m < points@.len() ==> spec_coord_valid(v0.size, #[trigger] points@[m]),
                forall|m: int| 0 <= m < points@.len() ==> v0.pos()[spec_idx(v0.size, #[trigger] points@[m])] is None,
                forall|a: int, b: int| 0 <= a < b < points@.len() ==> #[trigger] points@[a] != #[trigger] points@[b],
                self@.pos() == with_stones(v0.pos(), v0.size, points@.subrange(0, k as int), value),
            decreases points@.len() - k,
        {
            let pt = points[k];
            let ghost pk = points@.subrange(0, k as int);
            let ghost pk1 = points@.subrange(0, k + 1);
            proof {
                lemma_idx(v0.size, pt.0 as int, pt.1 as int);
                assert forall|m: int| 0 <= m < pk.len() implies spec_idx(v0.size, #[trigger] pk[m]) != spec_idx(v0.size, pt) by {
                    assert(pk[m] == points@[m]);
                    assert(points@[m] != points@[k as int]);
                    let a = pk[m];
                    lemma_idx(v0.size, a.0 as int, a.1 as int);
                    if spec_idx(v0.size, a) == spec_idx(v0.size, pt) {
                        assert(a.0 == pt.0 && a.1 == pt.1);
                        assert(a == pt);
                    }
                }
                assert(self@.pos()[spec_idx(v0.size, pt)] is None);
            }
            self.push(pt, value);
            proof {
                assert(self@.pos() =~= with_stones(v0.pos(), v0.size, pk1, value)) by {
                    assert forall|i: int| 0 <= i < 361 implies #[trigger] self@.pos()[i] == with_stones(v0.pos(), v0.size, pk1, value)[i] by {
                        if exists|m: int| 0 <= m < pk.len() && spec_idx(v0.size, #[trigger] pk[m]) == i {
                            let m = choose|m: int| 0 <= m < pk.len() && spec_idx(v0.size, #[trigger] pk[m]) == i;
                            assert(pk1[m] == pk[m]);
                        }
                        if exists|m: int| 0 <= m < pk1.len() && spec_idx(v0.size, #[trigger] pk1[m]) == i {
                            let m = choose|m: int| 0 <= m < pk1.len() && spec_idx(v0.size, #[trigger] pk1[m]) == i;
                            if m < k {
                                assert(pk[m] == pk1[m]);
                            }
                        }
                        assert(pk1[k as int] == pt);
                    }
                }
            }
            k += 1;
        }
        proof {
            assert(points@.subrange(0, points@.len() as int) == points@);
        }
    }

    /// The content of the 361 board indices, row-major.
    pub fn to_vec(&self) -> (r: Vec<MaybeColor>)
        requires
            self@.wf(),
        ensures
            r@ == self@.pos(),
    {
        let mut res: Vec<MaybeColor> = Vec::new();
        let mut i: usize = 0;
        while i < BOARD_MAX_LENGTH
            invariant
                self@.wf(),
                0 <= i <= 361,
                res@ == self@.pos().subrange(0, i as int),
            decreases 361 - i,
        {
            res.push(self.get_color_idx(i));
            i += 1;
        }
        res
    }

    /// The stones of the goban, in index order.
    pub fn get_stones(&self) -> (r: Vec<Stone>)
        requires
            self@.wf(),
        ensures
            r@ == stones_upto(self@.pos(), self@.size, 361),
    {
        proof {
            self@.lemma_wf();
        }
        let mut res: Vec<Stone> = Vec::new();
        let mut i: usize = 0;
        while i < BOARD_MAX_LENGTH
            invariant
                self@.wf(),
                0 <= i <= 361,
                res@ == stones_upto(self@.pos(), self@.size, i as int),
                forall|j: int| 0 <= j < 361 && self@.pos()[j] is Some ==> j < self@.area(),
            decreases 361 - i,
        {
            match self.get_color_idx(i) {
                Some(c) => {
                    proof {
                        lemma_idx_inv(self@.size, i as int);
                    }
                    res.push(Stone { coord: one_to_2dim(self.size, i), color: c });
                },
                None => {},
            }
            i += 1;
        }
        res
    }

    /// The number of stones: (black, white).
    pub fn number_of_stones(&self) -> (r: (u32, u32))
        requires
            self@.wf(),
        ensures
            r.0 == count_color(self@.pos(), Color::Black, 361),
            r.1 == count_color(self@.pos(), Color::White, 361),
    {
        let mut black: u32 = 0;
        let mut white: u32 = 0;
        let mut i: usize = 0;
        while i < BOARD_MAX_LENGTH
            invariant
                self@.wf(),
                0 <= i <= 361,
                black == count_color(self@.pos(), Color::Black, i as int),
                white == count_color(self@.pos(), Color::White, i as int),
            decreases 361 - i,
        {
            proof {
                lemma_count_bound(self@.pos(), Color::Black, i as int);
                lemma_count_bound(self@.pos(), Color::White, i as int);
            }
            match self.get_color_idx(i) {
                Some(Color::Black) => {
                    black += 1;
                },
                Some(Color::White) => {
                    white += 1;
                },
                None => {},
            }
            i += 1;
        }
        (black, white)
    }

    /// The empty neighbors of `coord`.
    pub fn get_liberties(&self, coord: Coord) -> (r: Vec<Coord>)
        requires
            self@.wf(),
            spec_coord_valid(self@.size, coord),
        ensures
            r@ == empty_neighbors(self@.pos(), self@.size, spec_idx(self@.size, coord), nb_list(self@.size, spec_idx(self@.size, coord)).len() as int),
    {
        let ghost i0 = spec_idx(self@.size, coord);
        proof {
            lemma_idx(self.size, coord.0 as int, coord.1 as int);
            lemma_area(self.size);
            lemma_nb_list(self.size, i0);
        }
        let idx = two_to_1dim(self.size, coord);
        let nbrs = neighbors_idx(self.size, idx);
        let n = idx4_len(&nbrs);
        let ghost l = nb_list(self@.size, i0);
        let mut res: Vec<Coord> = Vec::new();
        let mut k: usize = 0;
        while k < n
            invariant
                self@.wf(),
                l == nb_list(self@.size, i0),
                idx4_items(nbrs) == l,
                n == l.len(),
                n <= 4,
                0 <= k <= n,
                self@.area() <= 361,
                forall|m: int| 0 <= m < l.len() ==> 0 <= #[trigger] l[m] < self@.area(),
                res@ == empty_neighbors(self@.pos(), self@.size, i0, k as int),
            decreases n - k,
        {
            let q = idx4_get(&nbrs, k);
            if self.get_color_idx(q).is_none() {
                proof {
                    lemma_idx_inv(self@.size, q as int);
                }
                res.push(one_to_2dim(self.size, q));
            }
            k += 1;
        }
        res
    }

    /// True when `coord` has an empty neighbor.
    pub fn has_liberties(&self, coord: Coord) -> (r: bool)
        requires
            self@.wf(),
            spec_coord_valid(self@.size, coord),
        ensures
            r == (empty_neighbors(self@.pos(), self@.size, spec_idx(self@.size, coord), nb_list(self@.size, spec_idx(self@.size, coord)).len() as int).len() > 0),
    {
        let libs = self.get_liberties(coord);
        libs.len() > 0
    }
}

impl Goban {
    /// The chain in slot `idx`.
    pub fn chain_at(&self, idx: GroupIdx) -> (r: Chain)
        requires
            self@.chain_live(idx as int),
        ensures
            r == self@.chain(idx as int),
    {
        self.chains[idx].unwrap()
    }

    /// The chain that holds the point of index `idx`, if any.
    pub fn chain_of_idx(&self, idx: BoardIdx) -> (r: Option<GroupIdx>)
        requires
            self@.wf(),
            idx < 361,
        ensures
            r == (match self@.chain_of(idx as int) {
                Some(c) => Some(c as usize),
                None => None,
            }),
            r is Some ==> self@.chain_live(r.unwrap() as int),
    {
        match self.board[idx] {
            Some(c) => {
                proof {
                    assert(self@.board_entry_ok(idx as int));
                }
                Some(c as usize)
            },
            None => None,
        }
    }
}

/// The character of the point `(i, j)` in the picture of a goban: its stone, or the line
/// drawing of an empty point (corners, edges and the inside differ).
pub open spec fn point_glyph(v: GobanView, i: int, j: int) -> char {
    match v.pos()[i * v.size.1 + j] {
        Some(Color::Black) => '●',
        Some(Color::White) => '○',
        None => {
            let top = i == 0;
            let bottom = i == v.size.0 - 1;
            let left = j == 0;
            let right = j == v.size.1 - 1;
            if top && left {
                '┏'
            } else if top && right {
                '┓'
            } else if bottom && left {
                '┗'
            } else if bottom && right {
                '┛'
            } else if top {
                '┯'
            } else if bottom {
                '┷'
            } else if left {
                '┠'
            } else if right {
                '┨'
            } else {
                '┼'
            }
        },
    }
}

/// The first `j` characters of row `i` of the picture.
pub open spec fn row_glyphs(v: GobanView, i: int, j: int) -> Seq<char> {
    Seq::new(j as nat, |k: int| point_glyph(v, i, k))
}

/// The picture of the first `n` rows: each row's characters, then a line break.
pub open spec fn picture(v: GobanView, n: int) -> Seq<char>
    decreases n,
{
    if n <= 0 {
        Seq::empty()
    } else {
        picture(v, n - 1) + row_glyphs(v, n - 1, v.size.1 as int) + seq!['\n']
    }
}

/// The board indices among the first `n` that hold a stone, in order.
pub open spec fn stone_indices(pos: Seq<Option<Color>>, n: int) -> Seq<usize>
    decreases n,
{
    if n <= 0 {
        Seq::empty()
    } else if pos[n - 1] is Some {
        stone_indices(pos, n - 1).push((n - 1) as usize)
    } else {
        stone_indices(pos, n - 1)
    }
}

/// The coordinates among the first `n` board indices whose content is `color`, in order.
pub open spec fn coords_with(pos: Seq<Option<Color>>, size: Size, color: Option<Color>, n: int) -> Seq<Coord>
    decreases n,
{
    if n <= 0 {
        Seq::empty()
    } else if pos[n - 1] == color {
        coords_with(pos, size, color, n - 1).push(coord_of(size, n - 1))
    } else {
        coords_with(pos, size, color, n - 1)
    }
}

/// The first `n` neighbors of board index `i`, with their content.
pub open spec fn neighbor_points(pos: Seq<Option<Color>>, size: Size, i: int, n: int) -> Seq<Point>
    decreases n,
{
    if n <= 0 {
        Seq::empty()
    } else {
        let j = nb_list(size, i)[n - 1] as int;
        neighbor_points(pos, size, i, n - 1).push(Point { coord: coord_of(size, j), color: pos[j] })
    }
}

/// The stones among the first `n` neighbors of board index `i`.
pub open spec fn neighbor_stones(pos: Seq<Option<Color>>, size: Size, i: int, n: int) -> Seq<Stone>
    decreases n,
{
    if n <= 0 {
        Seq::empty()
    } else {
        let prev = neighbor_stones(pos, size, i, n - 1);
        let j = nb_list(size, i)[n - 1] as int;
        match pos[j] {
            Some(c) => prev.push(Stone { coord: coord_of(size, j), color: c }),
            None => prev,
        }
    }
}

impl Goban {
    /// A picture of the goban, one line per row, (0, 0) at the top left: `●` for black,
    /// `○` for white, and the line drawing of the board for empty points.
    pub fn pretty_string(&self) -> (r: String)
        requires
            self@.wf(),
        ensures
            r@ == picture(self@, self@.size.0 as int),
    {
        let ghost v = self@;
        let (h, w) = self.size;
        let mut buff: Vec<char> = Vec::new();
        let mut i: u8 = 0;
        while i < h
            invariant
                v == self@,
                self@.wf(),
                (h, w) == v.size,
                0 <= i <= h,
                buff@ == picture(v, i as int),
            decreases h - i,
        {
            let mut j: u8 = 0;
            while j < w
                invariant
                    v == self@,
                    self@.wf(),
                    (h, w) == v.size,
                    0 <= i < h,
                    0 <= j <= w,
                    buff@ == picture(v, i as int) + row_glyphs(v, i as int, j as int),
                decreases w - j,
            {
                let c = match self.get_color((i, j)) {
                    Some(Color::Black) => '●',
                    Some(Color::White) => '○',
                    None => {
                        let top = i == 0;
                        let bottom = i == h - 1;
                        let left = j == 0;
                        let right = j == w - 1;
                        if top && left {
                            '┏'
                        } else if top && right {
                            '┓'
                        } else if bottom && left {
                            '┗'
                        } else if bottom && right {
                            '┛'
                        } else if top {
                            '┯'
                        } else if bottom {
                            '┷'
                        } else if left {
                            '┠'
                        } else if right {
                            '┨'
                        } else {
                            '┼'
                        }
                    },
                };
                buff.push(c);
                j += 1;
                proof {
                    assert(buff@ =~= picture(v, i as int) + row_glyphs(v, i as int, j as int));
                }
            }
            buff.push('\n');
            i += 1;
            proof {
                assert(buff@ =~= picture(v, i as int));
            }
        }
        crate::sgf::text::string_of(&buff)
    }

    /// The board in rows of the goban's width, row after row, as long as whole rows fit in
    /// the board's storage.
    pub fn matrix(&self) -> (r: Vec<Vec<MaybeColor>>)
        requires
            self@.wf(),
            self@.size.1 > 0,
        ensures
            r@.len() == 361int / (self@.size.1 as int),
            forall|k: int| 0 <= k < r@.len() ==> (#[trigger] r@[k])@ == self@.pos().subrange(k * self@.size.1, (k + 1) * self@.size.1),
    {
        let w = self.size.1 as usize;
        let rows = BOARD_MAX_LENGTH / w;
        let mut mat: Vec<Vec<MaybeColor>> = Vec::new();
        let mut k: usize = 0;
        while k < rows
            invariant
                self@.wf(),
                w == self@.size.1,
                w > 0,
                rows == 361int / (w as int),
                0 <= k <= rows,
                mat@.len() == k,
                forall|m: int| 0 <= m < k ==> (#[trigger] mat@[m])@ == self@.pos().subrange(m * w, (m + 1) * w),
            decreases rows - k,
        {
            proof {
                assert((k + 1) * w <= 361) by (nonlinear_arith)
                    requires
                        k < rows,
                        rows == 361int / (w as int),
                        w > 0,
                ;
                assert(k * w + w == (k + 1) * w) by (nonlinear_arith);
            }
            let mut line: Vec<MaybeColor> = Vec::new();
            let mut j: usize = 0;
            while j < w
                invariant
                    self@.wf(),
                    w == self@.size.1,
                    (k + 1) * w <= 361,
                    k * w + w == (k + 1) * w,
                    0 <= j <= w,
                    line@ == self@.pos().subrange(k * w, k * w + j),
                decreases w - j,
            {
                line.push(self.get_color_idx(k * w + j));
                j += 1;
                proof {
                    assert(line@ =~= self@.pos().subrange(k * w, k * w + j));
                }
            }
            mat.push(line);
            k += 1;
        }
        mat
    }

    /// The board indices of the points that hold a stone, in order.
    pub fn get_empty_idx(&self) -> (r: Vec<BoardIdx>)
        requires
            self@.wf(),
        ensures
            r@ == stone_indices(self@.pos(), 361),
    {
        let mut res: Vec<BoardIdx> = Vec::new();
        let mut i: usize = 0;
        while i < BOARD_MAX_LENGTH
            invariant
                self@.wf(),
                0 <= i <= 361,
                res@ == stone_indices(self@.pos(), i as int),
            decreases 361 - i,
        {
            if self.get_color_idx(i).is_some() {
                res.push(i);
            }
            i += 1;
        }
        res
    }

    /// The points of the goban whose content is `color`, in order.
    pub fn get_coords_by_color(&self, color: MaybeColor) -> (r: Vec<Coord>)
        requires
            self@.wf(),
        ensures
            r@ == coords_with(self@.pos(), self@.size, color, self@.area()),
    {
        proof {
            self@.lemma_wf();
        }
        let n = self.size.0 as usize * self.size.1 as usize;
        let mut res: Vec<Coord> = Vec::new();
        let mut i: usize = 0;
        while i < n
            invariant
                self@.wf(),
                n == self@.area(),
                n <= 361,
                0 <= i <= n,
                res@ == coords_with(self@.pos(), self@.size, color, i as int),
            decreases n - i,
        {
            if self.get_color_idx(i) == color {
                proof {
                    lemma_idx_inv(self@.size, i as int);
                }
                res.push(one_to_2dim(self.size, i));
            }
            i += 1;
        }
        res
    }

    /// The empty points of the goban, in order.
    pub fn get_empty_coords(&self) -> (r: Vec<Coord>)
        requires
            self@.wf(),
        ensures
            r@ == coords_with(self@.pos(), self@.size, None, self@.area()),
    {
        self.get_coords_by_color(None)
    }

    /// The points of the goban whose content is `color`, with it, in order.
    pub fn get_stones_by_color(&self, color: MaybeColor) -> (r: Vec<Point>)
        requires
            self@.wf(),
        ensures
            r@ == coords_with(self@.pos(), self@.size, color, self@.area()).map_values(|c: Coord| Point { coord: c, color }),
    {
        let coords = self.get_coords_by_color(color);
        let mut res: Vec<Point> = Vec::new();
        let mut k: usize = 0;
        while k < coords.len()
            invariant
                0 <= k <= coords@.len(),
                res@ == coords@.map_values(|c: Coord| Point { coord: c, color }).take(k as int),
            decreases coords@.len() - k,
        {
            res.push(Point { coord: coords[k], color });
            k += 1;
            proof {
                assert(res@ =~= coords@.map_values(|c: Coord| Point { coord: c, color }).take(k as int));
            }
        }
        proof {
            assert(coords@.map_values(|c: Coord| Point { coord: c, color }).take(coords@.len() as int) =~= coords@.map_values(
                |c: Coord| Point { coord: c, color },
            ));
        }
        res
    }

    /// The neighbors of `point`, with their content.
    pub fn get_connected_points(&self, point: Coord) -> (r: Vec<Point>)
        requires
            self@.wf(),
            spec_coord_valid(self@.size, point),
        ensures
            r@ == neighbor_points(self@.pos(), self@.size, spec_idx(self@.size, point), nb_list(self@.size, spec_idx(self@.size, point)).len() as int),
    {
        let ghost i0 = spec_idx(self@.size, point);
        proof {
            lemma_idx(self.size, point.0 as int, point.1 as int);
            lemma_area(self.size);
            lemma_nb_list(self.size, i0);
        }
        let idx = two_to_1dim(self.size, point);
        let nbrs = neighbors_idx(self.size, idx);
        let n = idx4_len(&nbrs);
        let ghost l = nb_list(self@.size, i0);
        let mut res: Vec<Point> = Vec::new();
        let mut k: usize = 0;
        while k < n
            invariant
                self@.wf(),
                l == nb_list(self@.size, i0),
                idx4_items(nbrs) == l,
                n == l.len(),
                n <= 4,
                0 <= k <= n,
                self@.area() <= 361,
                forall|m: int| 0 <= m < l.len() ==> 0 <= #[trigger] l[m] < self@.area(),
                res@ == neighbor_points(self@.pos(), self@.size, i0, k as int),
            decreases n - k,
        {
            let q = idx4_get(&nbrs, k);
            proof {
                lemma_idx_inv(self@.size, q as int);
            }
            res.push(Point { coord: one_to_2dim(self.size, q), color: self.get_color_idx(q) });
            k += 1;
        }
        res
    }

    /// The stones next to `point`.
    pub fn get_connected_stones(&self, point: Coord) -> (r: Vec<Stone>)
        requires
            self@.wf(),
            spec_coord_valid(self@.size, point),
        ensures
            r@ == neighbor_stones(self@.pos(), self@.size, spec_idx(self@.size, point), nb_list(self@.size, spec_idx(self@.size, point)).len() as int),
    {
        let ghost i0 = spec_idx(self@.size, point);
        proof {
            lemma_idx(self.size, point.0 as int, point.1 as int);
            lemma_area(self.size);
            lemma_nb_list(self.size, i0);
        }
        let idx = two_to_1dim(self.size, point);
        let nbrs = neighbors_idx(self.size, idx);
        let n = idx4_len(&nbrs);
        let ghost l = nb_list(self@.size, i0);
        let mut res: Vec<Stone> = Vec::new();
        let mut k: usize = 0;
        while k < n
            invariant
                self@.wf(),
                l == nb_list(self@.size, i0),
                idx4_items(nbrs) == l,
                n == l.len(),
                n <= 4,
                0 <= k <= n,
                self@.area() <= 361,
                forall|m: int| 0 <= m < l.len() ==> 0 <= #[trigger] l[m] < self@.area(),
                res@ == neighbor_stones(self@.pos(), self@.size, i0, k as int),
            decreases n - k,
        {
            let q = idx4_get(&nbrs, k);
            proof {
                lemma_idx_inv(self@.size, q as int);
            }
            match self.get_color_idx(q) {
                Some(c) => {
                    res.push(Stone { coord: one_to_2dim(self.size, q), color: c });
                },
                None => {},
            }
            k += 1;
        }
        res
    }

    /// The stones of the chain in slot `idx`, from its origin along its circular list.
    pub fn chain_stones(&self, idx: GroupIdx) -> (r: Vec<Stone>)
        requires
            self@.wf(),
            self@.chain_live(idx as int),
        ensures
            r@ == self@.members[idx as int].map_values(|i: int| Stone { coord: coord_of(self@.size, i), color: self@.chain(idx as int).color }),
    {
        let ghost v = self@;
        let ghost l = v.members[idx as int];
        assert(v.chain_list_ok(idx as int));
        let chain = self.chains[idx].unwrap();
        let color = chain.color;
        let n = chain.num_stones as usize;
        let mut cur = chain.origin as usize;
        let mut res: Vec<Stone> = Vec::new();
        let mut k: usize = 0;
        while k < n
            invariant
                v == self@,
                v.wf(),
                v.chain_list_ok(idx as int),
                l == v.members[idx as int],
                n == l.len(),
                color == v.chain(idx as int).color,
                0 <= k <= n,
                k < n ==> cur == l[k as int],
                res@ == l.map_values(|i: int| Stone { coord: coord_of(v.size, i), color }).take(k as int),
            decreases n - k,
        {
            assert(0 <= l[k as int] < v.area());
            proof {
                lemma_area(v.size);
                lemma_idx_inv(v.size, cur as int);
            }
            res.push(Stone { coord: one_to_2dim(self.size, cur), color });
            let next = self.next_stone[cur] as usize;
            assert(next == succ(l, k as int));
            cur = next;
            k += 1;
            proof {
                assert(res@ =~= l.map_values(|i: int| Stone { coord: coord_of(v.size, i), color }).take(k as int));
            }
        }
        proof {
            assert(l.map_values(|i: int| Stone { coord: coord_of(v.size, i), color }).take(n as int) =~= l.map_values(
                |i: int| Stone { coord: coord_of(v.size, i), color },
            ));
        }
        res
    }

    /// The slots of chains, removed chains included (as `None`).
    pub fn chains(&self) -> (r: &Vec<Option<Chain>>)
        ensures
            r@ == self@.chains,
    {
        &self.chains
    }
}

/// The content of point `i` as the raw tables give it, whatever their state: none where
/// the board names no chain in use.
pub open spec fn raw_color(v: GobanView, i: int) -> Option<Color> {
    if 0 <= i < v.board.len() {
        match v.board[i] {
            Some(c) => if (c as int) < v.chains.len() {
                match v.chains[c as int] {
                    Some(ch) => Some(ch.color),
                    None => None,
                }
            } else {
                None
            },
            None => None,
        }
    } else {
        None
    }
}

/// Two gobans are equal when they have the same size and hash and the same content on each
/// point of the goban.
pub open spec fn same_goban(a: GobanView, b: GobanView) -> bool {
    &&& a.size == b.size
    &&& a.hash == b.hash
    &&& forall|x: int, y: int| 0 <= x < a.size.0 && 0 <= y < a.size.1 ==> #[trigger] raw_color(a, x * a.size.1 + y) == raw_color(b, x * a.size.1 + y)
}

/// The largest `s` whose square is at most `n`, searched up to `bound`.
pub open spec fn isqrt_from(n: int, s: int) -> int
    decreases 20 - s,
{
    if s < 20 && (s + 1) * (s + 1) <= n {
        isqrt_from(n, s + 1)
    } else {
        s
    }
}

/// True when the square of `s + 1` is at most `n`.
fn square_fits(s: u8, n: usize) -> (r: bool)
    requires
        s < 20,
    ensures
        r == ((s + 1) * (s + 1) <= n),
{
    let t = s as usize + 1;
    proof {
        assert(t * t <= 400) by (nonlinear_arith)
            requires
                t <= 20,
        ;
    }
    t * t <= n
}

impl Goban {
    /// The content of point `i` as the raw tables give it.
    fn raw_color_at(&self, i: usize) -> (r: Option<Color>)
        ensures
            r == raw_color(self@, i as int),
    {
        if i < self.board.len() {
            match self.board[i] {
                Some(c) => if (c as usize) < self.chains.len() {
                    match self.chains[c as usize] {
                        Some(ch) => Some(ch.color),
                        None => None,
                    }
                } else {
                    None
                },
                None => None,
            }
        } else {
            None
        }
    }

    /// A square goban that holds the stones of `stones`, read row after row; its side is the
    /// square root of the length.
    pub fn from_slice(stones: &[MaybeColor]) -> (r: Goban)
        requires
            stones@.len() <= 361,
            isqrt_from(stones@.len() as int, 0) * isqrt_from(stones@.len() as int, 0) == stones@.len(),
        ensures
            r@.wf(),
            r@.size == (isqrt_from(stones@.len() as int, 0) as u8, isqrt_from(stones@.len() as int, 0) as u8),
            r@.pos() == Seq::new(361, |i: int| if i < stones@.len() {
                stones@[i]
            } else {
                None
            }),
    {
        let n = stones.len();
        let mut s: u8 = 0;
        while s < 20 && square_fits(s, n)
            invariant
                0 <= s <= 20,
                n == stones@.len(),
                isqrt_from(n as int, s as int) == isqrt_from(n as int, 0),
                s * s <= n,
            decreases 20 - s,
        {
            s += 1;
        }
        proof {
            assert(s <= 19) by (nonlinear_arith)
                requires
                    s * s <= n,
                    n <= 361,
                    s <= 20,
            ;
        }
        let mut g = Goban::new((s, s));
        let mut i: usize = 0;
        while i < n
            invariant
                0 <= i <= n,
                n == stones@.len(),
                n <= 361,
                s <= 19,
                s * s == n,
                g@.wf(),
                g@.size == (s, s),
                g@.pos() == Seq::new(361, |j: int| if j < i {
                    stones@[j]
                } else {
                    None
                }),
            decreases n - i,
        {
            match stones[i] {
                Some(color) => {
                    proof {
                        lemma_area((s, s));
                        lemma_idx_inv((s, s), i as int);
                    }
                    let c = one_to_2dim((s, s), i);
                    g.push(c, color);
                },
                None => {},
            }
            i += 1;
            proof {
                assert(g@.pos() =~= Seq::new(361, |j: int| if j < i {
                    stones@[j]
                } else {
                    None
                }));
            }
        }
        g
    }
}

impl PartialEq for Goban {
    fn eq(&self, other: &Self) -> (r: bool) {
        if self.size.0 != other.size.0 || self.size.1 != other.size.1 || self.zobrist_hash != other.zobrist_hash {
            return false;
        }
        let (h, w) = self.size;
        let mut x: u8 = 0;
        while x < h
            invariant
                (h, w) == self@.size,
                self@.size == other@.size,
                0 <= x <= h,
                forall|a: int, b: int| 0 <= a < x && 0 <= b < w ==> #[trigger] raw_color(self@, a * w + b) == raw_color(other@, a * w + b),
            decreases h - x,
        {
            let mut y: u8 = 0;
            while y < w
                invariant
                    (h, w) == self@.size,
                    self@.size == other@.size,
                    0 <= x < h,
                    0 <= y <= w,
                    forall|a: int, b: int| 0 <= a < x && 0 <= b < w ==> #[trigger] raw_color(self@, a * w + b) == raw_color(other@, a * w + b),
                    forall|b: int| 0 <= b < y ==> #[trigger] raw_color(self@, x * w + b) == raw_color(other@, x * w + b),
                decreases w - y,
            {
                proof {
                    assert(x * w <= 255 * 255) by (nonlinear_arith)
                        requires
                            x <= 255,
                            w <= 255,
                    ;
                }
                let i = x as usize * w as usize + y as usize;
                if self.raw_color_at(i) != other.raw_color_at(i) {
                    return false;
                }
                y += 1;
            }
            x += 1;
        }
        true
    }
}

impl vstd::std_specs::cmp::PartialEqSpecImpl for Goban {
    open spec fn obeys_eq_spec() -> bool {
        true
    }

    open spec fn eq_spec(&self, other: &Goban) -> bool {
        same_goban(self@, other@)
    }
}

impl Default for Goban {
    /// An empty 19 by 19 goban.
    fn default() -> (r: Goban)
        ensures
            r@.wf(),
            r@.size == (19u8, 19u8),
            forall|i: int| 0 <= i < 361 ==> #[trigger] r@.pos()[i] is None,
    {
        Goban::new((19, 19))
    }
}

/// Two well-formed gobans that hold the same stones have the same Zobrist hash.
pub proof fn lemma_same_position_same_hash(a: GobanView, b: GobanView)
    requires
        a.wf(),
        b.wf(),
        a.pos() == b.pos(),
    ensures
        a.hash == b.hash,
{
}

} // verus!
