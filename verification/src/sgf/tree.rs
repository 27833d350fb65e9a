//! A game tree: a sequence of nodes and the variations that follow its last node.

use vstd::prelude::*;
use crate::sgf::error::{SgfError, SgfErrorKind};
use crate::sgf::node::{is_invalid, is_unknown, node_ok, node_text, GameNode};
use crate::sgf::text::string_of;
use crate::sgf::token::SgfToken;

verus! {

/// A game tree: its nodes, then its variations.
#[derive(Debug, PartialEq)]
pub struct GameTree {
    pub nodes: Vec<GameNode>,
    pub variations: Vec<GameTree>,
}

/// The number of nodes of the longest line of play of `t`.
pub open spec fn max_nodes(t: GameTree) -> nat
    decreases t, t.variations@.len() + 1,
{
    t.nodes@.len() + max_prefix(t, t.variations@.len() as int)
}

/// The longest line among the first `k` variations of `t`.
pub open spec fn max_prefix(t: GameTree, k: int) -> nat
    decreases t, k,
{
    if k <= 0 || k > t.variations@.len() {
        0
    } else {
        let a = max_prefix(t, k - 1);
        let b = max_nodes(t.variations@[k - 1]);
        if a >= b {
            a
        } else {
            b
        }
    }
}

/// True when a node holds an unknown token (or an invalid one when `invalid` holds).
pub open spec fn node_has(n: GameNode, invalid: bool) -> bool {
    exists|k: int| 0 <= k < n.tokens@.len() && (if invalid {
        is_invalid(#[trigger] n.tokens@[k]@)
    } else {
        is_unknown(n.tokens@[k]@)
    })
}

/// The first `k` nodes of a list that hold an unknown (or invalid) token.
pub open spec fn nodes_where(s: Seq<GameNode>, invalid: bool, k: int) -> Seq<GameNode>
    decreases k,
{
    if k <= 0 {
        Seq::empty()
    } else {
        let prev = nodes_where(s, invalid, k - 1);
        if node_has(s[k - 1], invalid) {
            prev.push(s[k - 1])
        } else {
            prev
        }
    }
}

/// The nodes of `t` that hold an unknown (or invalid) token: those of its own sequence,
/// then those of each variation in turn.
pub open spec fn tree_nodes_where(t: GameTree, invalid: bool) -> Seq<GameNode>
    decreases t, t.variations@.len() + 1,
{
    nodes_where(t.nodes@, invalid, t.nodes@.len() as int) + vars_nodes_where(t, invalid, t.variations@.len() as int)
}

/// The nodes holding an unknown (or invalid) token of the first `k` variations of `t`.
pub open spec fn vars_nodes_where(t: GameTree, invalid: bool, k: int) -> Seq<GameNode>
    decreases t, k,
{
    if k <= 0 || k > t.variations@.len() {
        Seq::empty()
    } else {
        vars_nodes_where(t, invalid, k - 1) + tree_nodes_where(t.variations@[k - 1], invalid)
    }
}

/// The text of the first `k` nodes of a list, one after the other.
pub open spec fn nodes_text(ns: Seq<GameNode>, k: int) -> Seq<char>
    decreases k,
{
    if k <= 0 {
        Seq::empty()
    } else {
        nodes_text(ns, k - 1) + node_text(ns[k - 1])
    }
}

/// A tree written out: `(`, its nodes, its variations, `)`.
pub open spec fn tree_text(t: GameTree) -> Seq<char>
    decreases t, t.variations@.len() + 1,
{
    seq!['('] + nodes_text(t.nodes@, t.nodes@.len() as int) + vars_text(t, t.variations@.len() as int) + seq![')']
}

/// The text of the first `k` variations of `t`.
pub open spec fn vars_text(t: GameTree, k: int) -> Seq<char>
    decreases t, k,
{
    if k <= 0 || k > t.variations@.len() {
        Seq::empty()
    } else {
        vars_text(t, k - 1) + tree_text(t.variations@[k - 1])
    }
}

/// Every node of the tree can be written out.
pub open spec fn tree_ok(t: GameTree) -> bool
    decreases t, t.variations@.len() + 1,
{
    (forall|k: int| 0 <= k < t.nodes@.len() ==> node_ok(#[trigger] t.nodes@[k])) && vars_ok(t, t.variations@.len() as int)
}

/// Every node of the first `k` variations of `t` can be written out.
pub open spec fn vars_ok(t: GameTree, k: int) -> bool
    decreases t, k,
{
    k <= 0 || k > t.variations@.len() || (vars_ok(t, k - 1) && tree_ok(t.variations@[k - 1]))
}

/// The first node met when walking a tree: its first node, or else the first of its first
/// variation.
pub open spec fn first_node(t: GameTree) -> Option<GameNode>
    decreases t,
{
    if t.nodes@.len() > 0 {
        Some(t.nodes@[0])
    } else if t.variations@.len() > 0 {
        first_node(t.variations@[0])
    } else {
        None
    }
}

/// The tree where a walk that enters `t` finds its first node: `t` itself when it has
/// nodes or no variation, else where the walk lands in its first variation.
pub open spec fn landing(t: GameTree) -> GameTree
    decreases t,
{
    if t.nodes@.len() > 0 || t.variations@.len() == 0 {
        t
    } else {
        landing(t.variations@[0])
    }
}

/// The nodes that a walk yields from node `i` of `t` with variation `u` picked: the rest of
/// `t`'s nodes, then, when `t` has variations, those of variation `u` walked from its start
/// with variation 0 picked at each later branch.
pub open spec fn walk_rest(t: GameTree, i: int, u: int) -> Seq<GameNode>
    decreases t,
{
    let own = if 0 <= i < t.nodes@.len() {
        t.nodes@.subrange(i, t.nodes@.len() as int)
    } else {
        Seq::empty()
    };
    if 0 <= u < t.variations@.len() {
        own + walk_rest(t.variations@[u], 0, 0)
    } else {
        own
    }
}

/// The node that an optional reference points to.
pub open spec fn node_of_ref(r: Option<&GameNode>) -> Option<GameNode> {
    match r {
        Some(n) => Some(*n),
        None => None,
    }
}

/// The nodes that a list of references points to.
pub open spec fn nodes_of(r: Seq<&GameNode>) -> Seq<GameNode> {
    r.map_values(|n: &GameNode| *n)
}

impl GameTree {
    /// An empty tree.
    pub fn default() -> (r: GameTree)
        ensures
            r.nodes@.len() == 0,
            r.variations@.len() == 0,
    {
        GameTree { nodes: Vec::new(), variations: Vec::new() }
    }

    /// The number of nodes of the longest line of play.
    pub fn count_max_nodes(&self) -> (r: usize)
        requires
            max_nodes(*self) <= usize::MAX,
        ensures
            r == max_nodes(*self),
        decreases *self,
    {
        let count = self.nodes.len();
        let mut best: usize = 0;
        let mut k: usize = 0;
        while k < self.variations.len()
            invariant
                0 <= k <= self.variations@.len(),
                best == max_prefix(*self, k as int),
                max_nodes(*self) <= usize::MAX,
                count == self.nodes@.len(),
            decreases self.variations@.len() - k,
        {
            proof {
                lemma_max_prefix_le(*self, k + 1);
                lemma_max_prefix_ge(*self, k + 1, k as int);
            }
            let v = self.variations[k].count_max_nodes();
            if v > best {
                best = v;
            }
            k += 1;
        }
        count + best
    }

    /// The characters of the tree written out (see `tree_text`).
    pub fn text(&self) -> (r: Vec<char>)
        requires
            tree_ok(*self),
        ensures
            r@ == tree_text(*self),
        decreases *self,
    {
        let mut res: Vec<char> = Vec::new();
        res.push('(');
        let mut k: usize = 0;
        while k < self.nodes.len()
            invariant
                tree_ok(*self),
                0 <= k <= self.nodes@.len(),
                res@ == seq!['('] + nodes_text(self.nodes@, k as int),
            decreases self.nodes@.len() - k,
        {
            assert(node_ok(self.nodes@[k as int]));
            let mut t = self.nodes[k].text();
            let ghost before = res@;
            let ghost tt = t@;
            res.append(&mut t);
            proof {
                assert(res@ =~= seq!['('] + nodes_text(self.nodes@, k + 1));
            }
            k += 1;
        }
        let ghost head = res@;
        let mut j: usize = 0;
        while j < self.variations.len()
            invariant
                tree_ok(*self),
                0 <= j <= self.variations@.len(),
                head == seq!['('] + nodes_text(self.nodes@, self.nodes@.len() as int),
                res@ == head + vars_text(*self, j as int),
            decreases self.variations@.len() - j,
        {
            proof {
                lemma_vars_ok(*self, self.variations@.len() as int, j + 1);
            }
            let mut t = self.variations[j].text();
            res.append(&mut t);
            proof {
                assert(res@ =~= head + vars_text(*self, j + 1));
            }
            j += 1;
        }
        res.push(')');
        res
    }

    /// The tree written out (see `tree_text`).
    pub fn into(self) -> (r: String)
        requires
            tree_ok(self),
        ensures
            r@ == tree_text(self),
    {
        let t = self.text();
        string_of(t.as_slice())
    }

    /// Checks if this tree has variations.
    pub fn has_variations(&self) -> (r: bool)
        ensures
            r == (self.variations@.len() > 0),
    {
        self.variations.len() > 0
    }

    /// The number of variations.
    pub fn count_variations(&self) -> (r: usize)
        ensures
            r == self.variations@.len(),
    {
        self.variations.len()
    }

    /// The length of the longest line of variation `variation`.
    pub fn get_varation_length(&self, variation: usize) -> (r: Result<usize, SgfError>)
        requires
            variation < self.variations@.len() ==> max_nodes(self.variations@[variation as int]) <= usize::MAX,
        ensures
            variation < self.variations@.len() ==> r == Ok::<usize, SgfError>(max_nodes(self.variations@[variation as int]) as usize),
            variation >= self.variations@.len() ==> r == Err::<usize, SgfError>(SgfError { kind: SgfErrorKind::VariationNotFound }),
    {
        if variation < self.variations.len() {
            Ok(self.variations[variation].count_max_nodes())
        } else {
            Err(SgfError::from_kind(SgfErrorKind::VariationNotFound))
        }
    }

    fn nodes_by(&self, invalid: bool) -> (r: Vec<&GameNode>)
        ensures
            nodes_of(r@) == tree_nodes_where(*self, invalid),
        decreases *self,
    {
        let mut res: Vec<&GameNode> = Vec::new();
        let mut k: usize = 0;
        while k < self.nodes.len()
            invariant
                0 <= k <= self.nodes@.len(),
                nodes_of(res@) == nodes_where(self.nodes@, invalid, k as int),
            decreases self.nodes@.len() - k,
        {
            let n = &self.nodes[k];
            let mut has = false;
            let mut j: usize = 0;
            while j < n.tokens.len()
                invariant
                    0 <= j <= n.tokens@.len(),
                    has == exists|m: int| 0 <= m < j && (if invalid {
                        is_invalid(#[trigger] n.tokens@[m]@)
                    } else {
                        is_unknown(n.tokens@[m]@)
                    }),
                decreases n.tokens@.len() - j,
            {
                let hit = match &n.tokens[j] {
                    SgfToken::Unknown(_) => !invalid,
                    SgfToken::Invalid(_) => invalid,
                    _ => false,
                };
                if hit {
                    has = true;
                }
                proof {
                    if hit {
                        assert(if invalid {
                            is_invalid(n.tokens@[j as int]@)
                        } else {
                            is_unknown(n.tokens@[j as int]@)
                        });
                    }
                    if exists|m: int| 0 <= m < j + 1 && (if invalid {
                        is_invalid(#[trigger] n.tokens@[m]@)
                    } else {
                        is_unknown(n.tokens@[m]@)
                    }) {
                        let m = choose|m: int| 0 <= m < j + 1 && (if invalid {
                            is_invalid(#[trigger] n.tokens@[m]@)
                        } else {
                            is_unknown(n.tokens@[m]@)
                        });
                        if m < j {
                            assert(exists|m2: int| 0 <= m2 < j && (if invalid {
                                is_invalid(#[trigger] n.tokens@[m2]@)
                            } else {
                                is_unknown(n.tokens@[m2]@)
                            }));
                        }
                    }
                }
                j += 1;
            }
            if has {
                let ghost before = res@;
                res.push(n);
                proof {
                    assert(nodes_of(res@) =~= nodes_of(before).push(*n));
                }
            }
            k += 1;
        }
        let mut v: usize = 0;
        while v < self.variations.len()
            invariant
                0 <= v <= self.variations@.len(),
                nodes_of(res@) == nodes_where(self.nodes@, invalid, self.nodes@.len() as int) + vars_nodes_where(*self, invalid, v as int),
            decreases self.variations@.len() - v,
        {
            let sub = self.variations[v].nodes_by(invalid);
            let ghost before = res@;
            let mut i: usize = 0;
            while i < sub.len()
                invariant
                    0 <= i <= sub@.len(),
                    nodes_of(res@) == nodes_of(before) + nodes_of(sub@).subrange(0, i as int),
                decreases sub@.len() - i,
            {
                let ghost b2 = res@;
                res.push(sub[i]);
                proof {
                    assert(nodes_of(res@) =~= nodes_of(b2).push(*sub@[i as int]));
                    assert(nodes_of(sub@).subrange(0, i + 1) =~= nodes_of(sub@).subrange(0, i as int).push(*sub@[i as int]));
                    assert(nodes_of(res@) =~= nodes_of(before) + nodes_of(sub@).subrange(0, i + 1));
                }
                i += 1;
            }
            proof {
                assert(nodes_of(sub@).subrange(0, sub@.len() as int) == nodes_of(sub@));
                assert(nodes_of(res@) =~= nodes_where(self.nodes@, invalid, self.nodes@.len() as int) + vars_nodes_where(*self, invalid, v + 1));
            }
            v += 1;
        }
        res
    }

    /// The nodes that hold an unknown token: those of the tree's sequence, then those of
    /// each variation in turn.
    pub fn get_unknown_nodes(&self) -> (r: Vec<&GameNode>)
        ensures
            nodes_of(r@) == tree_nodes_where(*self, false),
    {
        self.nodes_by(false)
    }

    /// The nodes that hold an invalid token, in the same order.
    pub fn get_invalid_nodes(&self) -> (r: Vec<&GameNode>)
        ensures
            nodes_of(r@) == tree_nodes_where(*self, true),
    {
        self.nodes_by(true)
    }

    /// An iterator over the nodes of the tree, following the first variation unless
    /// another is picked.
    pub fn iter(&self) -> (r: GameTreeIterator<'_>)
        ensures
            *r.tree == *self,
            r.index == 0,
            r.variation == 0,
    {
        GameTreeIterator::new(self)
    }
}

/// The longest line among more variations is no shorter.
proof fn lemma_max_prefix_ge(t: GameTree, k: int, j: int)
    requires
        0 <= j <= k <= t.variations@.len(),
    ensures
        max_prefix(t, k) >= max_prefix(t, j),
    decreases k - j,
{
    if j < k {
        lemma_max_prefix_ge(t, k - 1, j);
    }
}

/// Each variation's longest line is bounded by the tree's.
proof fn lemma_max_prefix_le(t: GameTree, k: int)
    requires
        0 < k <= t.variations@.len(),
    ensures
        max_nodes(t.variations@[k - 1]) <= max_prefix(t, k),
        max_prefix(t, k) <= max_nodes(t),
{
    lemma_max_prefix_ge(t, t.variations@.len() as int, k);
}

/// Among the first `k` variations, one gives the longest line.
proof fn lemma_max_prefix_attained(t: GameTree, k: int)
    requires
        0 < k <= t.variations@.len(),
    ensures
        exists|j: int| 0 <= j < k && max_prefix(t, k) == max_nodes(#[trigger] t.variations@[j]),
    decreases k,
{
    if k > 1 {
        lemma_max_prefix_attained(t, k - 1);
        if max_prefix(t, k) != max_nodes(t.variations@[k - 1]) {
            let j = choose|j: int| 0 <= j < k - 1 && max_prefix(t, k - 1) == max_nodes(#[trigger] t.variations@[j]);
            assert(max_prefix(t, k) == max_nodes(t.variations@[j]));
        }
    } else {
        assert(max_prefix(t, 0) == 0);
        assert(max_prefix(t, k) == max_nodes(t.variations@[0]));
    }
}

/// The longest line of a tree: its own nodes alone when it has no variation, else its
/// nodes followed by the longest line of one of its variations, none of which gives a
/// longer one.
pub proof fn lemma_max_nodes_lines(t: GameTree)
    ensures
        max_nodes(t) >= t.nodes@.len(),
        t.variations@.len() == 0 ==> max_nodes(t) == t.nodes@.len(),
        forall|j: int| 0 <= j < t.variations@.len() ==> max_nodes(t) >= t.nodes@.len() + max_nodes(#[trigger] t.variations@[j]),
        t.variations@.len() > 0 ==> exists|j: int|
            0 <= j < t.variations@.len() && max_nodes(t) == t.nodes@.len() + max_nodes(#[trigger] t.variations@[j]),
{
    let n = t.variations@.len() as int;
    assert forall|j: int| 0 <= j < n implies max_nodes(t) >= t.nodes@.len() + max_nodes(#[trigger] t.variations@[j]) by {
        lemma_max_prefix_ge(t, n, j + 1);
        lemma_max_prefix_le(t, j + 1);
    }
    if n > 0 {
        lemma_max_prefix_attained(t, n);
    }
}

/// Walks the nodes of a tree: its sequence, then the picked variation (the first by
/// default), and so on.
pub struct GameTreeIterator<'a> {
    pub tree: &'a GameTree,
    pub index: usize,
    pub variation: usize,
}

impl<'a> GameTreeIterator<'a> {
    /// Starts at the first node of `game_tree`.
    pub fn new(game_tree: &'a GameTree) -> (r: Self)
        ensures
            *r.tree == *game_tree,
            r.index == 0,
            r.variation == 0,
    {
        GameTreeIterator { tree: game_tree, index: 0, variation: 0 }
    }

    /// True when the current tree has variations.
    pub fn has_variations(&self) -> (r: bool)
        ensures
            r == (self.tree.variations@.len() > 0),
    {
        self.tree.has_variations()
    }

    /// The number of variations of the current tree.
    pub fn count_variations(&self) -> (r: usize)
        ensures
            r == self.tree.variations@.len(),
    {
        self.tree.count_variations()
    }

    /// Picks the variation to follow once the nodes of the current tree are done.
    pub fn pick_variation(&mut self, variation: usize) -> (r: Result<usize, SgfError>)
        ensures
            variation < old(self).tree.variations@.len() ==> r == Ok::<usize, SgfError>(variation) && *final(self) == (GameTreeIterator {
                variation,
                ..*old(self)
            }),
            variation >= old(self).tree.variations@.len() ==> r == Err::<usize, SgfError>(SgfError { kind: SgfErrorKind::VariationNotFound })
                && *final(self) == *old(self),
    {
        if variation < self.tree.variations.len() {
            self.variation = variation;
            Ok(self.variation)
        } else {
            Err(SgfError::from_kind(SgfErrorKind::VariationNotFound))
        }
    }

    /// The next node: the next of the current tree's sequence, or else the first of the
    /// picked variation, which becomes the current tree (through its first variations
    /// while they have no node of their own), with variation 0 picked. Call after call, the
    /// nodes come out in the order of `walk_rest` from the state before the first call, and
    /// once it is exhausted every call gives none.
    pub fn next(&mut self) -> (r: Option<&'a GameNode>)
        requires
            old(self).variation < old(self).tree.variations@.len() || old(self).tree.variations@.len() == 0,
        ensures
            old(self).index < old(self).tree.nodes@.len() ==> r == Some(&old(self).tree.nodes@[old(self).index as int]) && *final(self) == (
            GameTreeIterator { index: (old(self).index + 1) as usize, ..*old(self) }),
            old(self).index >= old(self).tree.nodes@.len() && old(self).tree.variations@.len() == 0 ==> r is None && *final(self)
                == *old(self),
            old(self).index >= old(self).tree.nodes@.len() && old(self).tree.variations@.len() > 0 ==> node_of_ref(r) == first_node(
                old(self).tree.variations@[old(self).variation as int],
            ) && *final(self).tree == landing(old(self).tree.variations@[old(self).variation as int]) && final(self).index == (if landing(
                old(self).tree.variations@[old(self).variation as int],
            ).nodes@.len() > 0 {
                1usize
            } else {
                0usize
            }) && final(self).variation == 0,
            final(self).variation < final(self).tree.variations@.len() || final(self).tree.variations@.len() == 0,
            ({
                let rest = walk_rest(*old(self).tree, old(self).index as int, old(self).variation as int);
                if rest.len() > 0 {
                    node_of_ref(r) == Some(rest[0]) && walk_rest(*final(self).tree, final(self).index as int, final(self).variation as int)
                        == rest.drop_first()
                } else {
                    r is None && walk_rest(*final(self).tree, final(self).index as int, final(self).variation as int).len() == 0
                }
            }),
        decreases old(self).tree,
    {
        if self.index < self.tree.nodes.len() {
            let ghost t = *self.tree;
            let ghost i = self.index as int;
            let node = &self.tree.nodes[self.index];
            self.index = self.index + 1;
            proof {
                let own = t.nodes@.subrange(i, t.nodes@.len() as int);
                let own2 = if i + 1 < t.nodes@.len() {
                    t.nodes@.subrange(i + 1, t.nodes@.len() as int)
                } else {
                    Seq::empty()
                };
                assert(own2 =~= own.drop_first());
                let u = self.variation as int;
                if 0 <= u < t.variations@.len() {
                    assert((own + walk_rest(t.variations@[u], 0, 0)).drop_first() =~= own2 + walk_rest(t.variations@[u], 0, 0));
                }
                assert(walk_rest(t, i, u)[0] == t.nodes@[i]);
                assert(walk_rest(t, i + 1, u) == walk_rest(t, i, u).drop_first());
            }
            Some(node)
        } else if self.tree.variations.len() > 0 {
            proof {
                let t = *self.tree;
                let u = self.variation as int;
                assert(walk_rest(t, self.index as int, u) =~= walk_rest(t.variations@[u], 0, 0));
            }
            self.tree = &self.tree.variations[self.variation];
            self.index = 0;
            self.variation = 0;
            self.next()
        } else {
            proof {
                assert(walk_rest(*self.tree, self.index as int, self.variation as int) =~= Seq::<GameNode>::empty());
            }
            None
        }
    }
}

/// The variations of a tree whose first `k` can be written out include the first `j`.
proof fn lemma_vars_ok(t: GameTree, k: int, j: int)
    requires
        vars_ok(t, k),
        0 < j <= k <= t.variations@.len(),
    ensures
        tree_ok(t.variations@[j - 1]),
    decreases k - j,
{
    if j < k {
        lemma_vars_ok(t, k - 1, j);
    }
}

} // verus!
