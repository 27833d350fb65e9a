//! Reading SGF text into a game tree.
//!
//! The grammar: a game tree is `(`, a sequence of one node or more, game trees (the
//! variations) and `)`; a node is `;` followed by properties; a property is an identifier
//! (letters) followed by one value or more, each in brackets, where `\` escapes the next
//! character. White space may separate the parts, but not lead the text. Each value of a
//! property makes one token.

use vstd::prelude::*;
use crate::sgf::error::{SgfError, SgfErrorKind};
use crate::sgf::node::GameNode;
use crate::sgf::text::{chars_of, sub_chars, string_of};
use crate::sgf::token::{token_of, SgfToken, TokenView};
use crate::sgf::tree::GameTree;

verus! {

/// A game tree as mathematical values: the tokens of each node, and the variations.
pub ghost struct TreeView {
    pub nodes: Seq<Seq<TokenView>>,
    pub variations: Seq<TreeView>,
}

/// The views of a list of tokens.
pub open spec fn token_views(v: Seq<SgfToken>) -> Seq<TokenView> {
    v.map_values(|k: SgfToken| k@)
}

/// The tokens of each node of a list, by their views.
pub open spec fn node_views(v: Seq<GameNode>) -> Seq<Seq<TokenView>> {
    v.map_values(|n: GameNode| token_views(n.tokens@))
}

/// The view of a game tree.
pub open spec fn tree_view(t: GameTree) -> TreeView
    decreases t,
{
    TreeView {
        nodes: node_views(t.nodes@),
        variations: Seq::new(t.variations@.len(), |i: int| if 0 <= i < t.variations@.len() {
            tree_view(t.variations@[i])
        } else {
            TreeView { nodes: Seq::empty(), variations: Seq::empty() }
        }),
    }
}

/// Each tree of `v` has the view at the same place in `w`.
pub open spec fn views_match(v: Seq<GameTree>, w: Seq<TreeView>) -> bool {
    v.len() == w.len() && forall|m: int| 0 <= m < v.len() ==> tree_view(#[trigger] v[m]) == w[m]
}

/// True for white space.
pub open spec fn is_ws(c: char) -> bool {
    c == ' ' || c == '\t' || c == '\r' || c == '\n'
}

/// True for an ASCII letter.
pub open spec fn is_alpha(c: char) -> bool {
    ('a' <= c && c <= 'z') || ('A' <= c && c <= 'Z')
}

/// The first index from `i` on that holds no white space.
pub open spec fn skip_ws(s: Seq<char>, i: int) -> int
    decreases s.len() - i,
{
    if 0 <= i < s.len() && is_ws(s[i]) {
        skip_ws(s, i + 1)
    } else {
        i
    }
}

/// The first index from `i` on that holds no letter.
pub open spec fn skip_alpha(s: Seq<char>, i: int) -> int
    decreases s.len() - i,
{
    if 0 <= i < s.len() && is_alpha(s[i]) {
        skip_alpha(s, i + 1)
    } else {
        i
    }
}

/// The index of the `]` that closes a value whose text starts at `j`.
pub open spec fn value_end(s: Seq<char>, j: int) -> Option<int>
    decreases s.len() - j,
{
    if j < 0 || j >= s.len() {
        None
    } else if s[j] == ']' {
        Some(j)
    } else if s[j] == '\\' {
        if j + 1 < s.len() {
            value_end(s, j + 2)
        } else {
            None
        }
    } else {
        value_end(s, j + 1)
    }
}

/// The values that follow an identifier at `i`, as tokens, and the index after them.
pub open spec fn p_values(s: Seq<char>, ident: Seq<char>, i: int) -> (Seq<TokenView>, int)
    decreases s.len() - i,
{
    let k = skip_ws(s, i);
    if 0 <= k < s.len() && s[k] == '[' && value_end(s, k + 1) is Some {
        let e = value_end(s, k + 1).unwrap();
        proof {
            lemma_skip_ws(s, i);
            lemma_value_end(s, k + 1);
        }
        let t = token_of(ident, s.subrange(k + 1, e));
        let rest = p_values(s, ident, e + 1);
        (seq![t] + rest.0, rest.1)
    } else {
        (Seq::empty(), i)
    }
}

/// The properties of a node from `i` on, as tokens, and the index after them; none when a
/// property has no value.
pub open spec fn p_props(s: Seq<char>, i: int) -> Option<(Seq<TokenView>, int)>
    decreases s.len() - i,
{
    let k = skip_ws(s, i);
    if 0 <= k < s.len() && is_alpha(s[k]) {
        let e = skip_alpha(s, k);
        let vals = p_values(s, s.subrange(k, e), e);
        if vals.0.len() == 0 {
            None
        } else {
            proof {
                lemma_skip_ws(s, i);
                lemma_skip_alpha(s, k);
                lemma_p_values(s, s.subrange(k, e), e);
            }
            match p_props(s, vals.1) {
                Some((rest, j)) => Some((vals.0 + rest, j)),
                None => None,
            }
        }
    } else {
        Some((Seq::empty(), i))
    }
}

/// The nodes of a sequence from `i` on, and the index after them.
pub open spec fn p_nodes(s: Seq<char>, i: int) -> Option<(Seq<Seq<TokenView>>, int)>
    decreases s.len() - i,
{
    let k = skip_ws(s, i);
    if 0 <= k < s.len() && s[k] == ';' {
        proof {
            lemma_skip_ws(s, i);
            lemma_p_props(s, k + 1);
        }
        match p_props(s, k + 1) {
            Some((toks, j)) => match p_nodes(s, j) {
                Some((rest, e)) => Some((seq![toks] + rest, e)),
                None => None,
            },
            None => None,
        }
    } else {
        Some((Seq::empty(), i))
    }
}

/// A game tree at `i` (no white space before it), and the index after it.
pub open spec fn p_tree(s: Seq<char>, i: int) -> Option<(TreeView, int)>
    decreases s.len() - i, 0int,
{
    if 0 <= i < s.len() && s[i] == '(' {
        proof {
            lemma_p_nodes(s, i + 1);
        }
        match p_nodes(s, i + 1) {
            Some((nodes, j)) => if nodes.len() == 0 {
                None
            } else {
                match p_vars(s, j) {
                    Some((vars, e)) => {
                        let k = skip_ws(s, e);
                        if 0 <= k < s.len() && s[k] == ')' {
                            Some((TreeView { nodes, variations: vars }, k + 1))
                        } else {
                            None
                        }
                    },
                    None => None,
                }
            },
            None => None,
        }
    } else {
        None
    }
}

/// The variations from `i` on, and the index after them.
pub open spec fn p_vars(s: Seq<char>, i: int) -> Option<(Seq<TreeView>, int)>
    decreases s.len() - i, 1int,
{
    let k = skip_ws(s, i);
    if 0 <= k < s.len() && s[k] == '(' {
        proof {
            lemma_skip_ws(s, i);
        }
        match p_tree(s, k) {
            Some((t, j)) => if j <= i || j > s.len() {
                None
            } else {
                match p_vars(s, j) {
                    Some((rest, e)) => Some((seq![t] + rest, e)),
                    None => None,
                }
            },
            None => None,
        }
    } else {
        Some((Seq::empty(), i))
    }
}

/// Skipping white space moves forward and stays within the text.
pub proof fn lemma_skip_ws(s: Seq<char>, i: int)
    ensures
        skip_ws(s, i) >= i,
        0 <= i <= s.len() ==> skip_ws(s, i) <= s.len(),
    decreases s.len() - i,
{
    if 0 <= i < s.len() && is_ws(s[i]) {
        lemma_skip_ws(s, i + 1);
    }
}

/// Skipping letters moves forward and stays within the text.
pub proof fn lemma_skip_alpha(s: Seq<char>, i: int)
    ensures
        skip_alpha(s, i) >= i,
        0 <= i <= s.len() ==> skip_alpha(s, i) <= s.len(),
        forall|m: int| i <= m < skip_alpha(s, i) ==> is_alpha(#[trigger] s[m]),
    decreases s.len() - i,
{
    if 0 <= i < s.len() && is_alpha(s[i]) {
        lemma_skip_alpha(s, i + 1);
    }
}

/// A value ends at a `]` within the text, at or after its start.
pub proof fn lemma_value_end(s: Seq<char>, j: int)
    ensures
        value_end(s, j) is Some ==> j <= value_end(s, j).unwrap() < s.len(),
    decreases s.len() - j,
{
    if 0 <= j < s.len() && s[j] != ']' {
        if s[j] == '\\' {
            if j + 1 < s.len() {
                lemma_value_end(s, j + 2);
            }
        } else {
            lemma_value_end(s, j + 1);
        }
    }
}

/// Reading values moves forward, strictly when a value was read, and stays within the text.
pub proof fn lemma_p_values(s: Seq<char>, ident: Seq<char>, i: int)
    requires
        0 <= i <= s.len(),
    ensures
        i <= p_values(s, ident, i).1 <= s.len(),
        p_values(s, ident, i).0.len() > 0 ==> p_values(s, ident, i).1 > i,
    decreases s.len() - i,
{
    let k = skip_ws(s, i);
    lemma_skip_ws(s, i);
    if 0 <= k < s.len() && s[k] == '[' && value_end(s, k + 1) is Some {
        let e = value_end(s, k + 1).unwrap();
        lemma_value_end(s, k + 1);
        lemma_p_values(s, ident, e + 1);
    }
}

/// Reading properties moves forward and stays within the text.
pub proof fn lemma_p_props(s: Seq<char>, i: int)
    requires
        0 <= i <= s.len(),
    ensures
        p_props(s, i) is Some ==> i <= p_props(s, i).unwrap().1 <= s.len(),
    decreases s.len() - i,
{
    let k = skip_ws(s, i);
    lemma_skip_ws(s, i);
    if 0 <= k < s.len() && is_alpha(s[k]) {
        let e = skip_alpha(s, k);
        lemma_skip_alpha(s, k);
        let vals = p_values(s, s.subrange(k, e), e);
        lemma_p_values(s, s.subrange(k, e), e);
        if vals.0.len() > 0 {
            lemma_p_props(s, vals.1);
        }
    }
}

/// Reading nodes moves forward and stays within the text.
pub proof fn lemma_p_nodes(s: Seq<char>, i: int)
    requires
        0 <= i <= s.len(),
    ensures
        p_nodes(s, i) is Some ==> i <= p_nodes(s, i).unwrap().1 <= s.len(),
    decreases s.len() - i,
{
    let k = skip_ws(s, i);
    lemma_skip_ws(s, i);
    if 0 <= k < s.len() && s[k] == ';' {
        lemma_p_props(s, k + 1);
        if p_props(s, k + 1) is Some {
            lemma_p_nodes(s, p_props(s, k + 1).unwrap().1);
        }
    }
}

/// True for a token that belongs in the root node alone.
pub open spec fn is_root_token(t: TokenView) -> bool {
    t is Size
}

/// No node of the tree but the first of the root holds a root token.
pub open spec fn roots_placed(t: TreeView, is_root: bool) -> bool
    decreases t,
{
    &&& forall|n: int, k: int| #![trigger t.nodes[n][k]] (if is_root {
        1int
    } else {
        0int
    }) <= n < t.nodes.len() && 0 <= k < t.nodes[n].len() ==> !is_root_token(t.nodes[n][k])
    &&& forall|v: int| 0 <= v < t.variations.len() ==> roots_placed(#[trigger] t.variations[v], false)
}

/// True for white space.
fn ws(c: char) -> (r: bool)
    ensures
        r == is_ws(c),
{
    c == ' ' || c == '\t' || c == '\r' || c == '\n'
}

/// True for an ASCII letter.
fn alpha(c: char) -> (r: bool)
    ensures
        r == is_alpha(c),
{
    ('a' <= c && c <= 'z') || ('A' <= c && c <= 'Z')
}

/// The first index from `i` on that holds no white space.
fn skip_ws_at(s: &Vec<char>, i: usize) -> (r: usize)
    requires
        i <= s@.len(),
    ensures
        r == skip_ws(s@, i as int),
{
    let mut k = i;
    while k < s.len() && ws(s[k])
        invariant
            i <= k <= s@.len(),
            skip_ws(s@, k as int) == skip_ws(s@, i as int),
        decreases s@.len() - k,
    {
        k += 1;
    }
    k
}

/// The first index from `i` on that holds no letter.
fn skip_alpha_at(s: &Vec<char>, i: usize) -> (r: usize)
    requires
        i <= s@.len(),
    ensures
        r == skip_alpha(s@, i as int),
{
    let mut k = i;
    while k < s.len() && alpha(s[k])
        invariant
            i <= k <= s@.len(),
            skip_alpha(s@, k as int) == skip_alpha(s@, i as int),
        decreases s@.len() - k,
    {
        k += 1;
    }
    k
}

/// The index of the `]` that closes a value whose text starts at `j`.
fn value_end_at(s: &Vec<char>, j: usize) -> (r: Option<usize>)
    requires
        j <= s@.len(),
    ensures
        match r {
            Some(e) => value_end(s@, j as int) == Some(e as int),
            None => value_end(s@, j as int) is None,
        },
{
    let mut k = j;
    while k < s.len()
        invariant
            j <= k <= s@.len(),
            value_end(s@, k as int) == value_end(s@, j as int),
        decreases s@.len() - k,
    {
        if s[k] == ']' {
            return Some(k);
        }
        if s[k] == '\\' {
            if k + 1 < s.len() {
                k += 2;
            } else {
                return None;
            }
        } else {
            k += 1;
        }
    }
    None
}

/// The values that follow an identifier at `i`, as tokens, and the index after them.
fn read_values(s: &Vec<char>, ident: &Vec<char>, i: usize) -> (r: (Vec<SgfToken>, usize))
    requires
        i <= s@.len(),
    ensures
        token_views(r.0@) == p_values(s@, ident@, i as int).0,
        r.1 == p_values(s@, ident@, i as int).1,
    decreases s@.len() - i,
{
    let k = skip_ws_at(s, i);
    proof {
        lemma_skip_ws(s@, i as int);
    }
    if k < s.len() && s[k] == '[' {
        match value_end_at(s, k + 1) {
            Some(e) => {
                proof {
                    lemma_value_end(s@, k + 1);
                }
                let v = sub_chars(s, k + 1, e);
                let t = SgfToken::from_chars(ident, &v);
                let (mut rest, j) = read_values(s, ident, e + 1);
                let ghost before = rest@;
                rest.insert(0, t);
                proof {
                    assert(token_views(rest@) =~= seq![t@] + token_views(before));
                }
                (rest, j)
            },
            None => (Vec::new(), i),
        }
    } else {
        (Vec::new(), i)
    }
}

/// The properties of a node from `i` on, as tokens, and the index after them.
fn read_props(s: &Vec<char>, i: usize) -> (r: Option<(Vec<SgfToken>, usize)>)
    requires
        i <= s@.len(),
    ensures
        match r {
            Some((v, j)) => p_props(s@, i as int) == Some((token_views(v@), j as int)),
            None => p_props(s@, i as int) is None,
        },
    decreases s@.len() - i,
{
    let k = skip_ws_at(s, i);
    proof {
        lemma_skip_ws(s@, i as int);
    }
    if k < s.len() && alpha(s[k]) {
        let e = skip_alpha_at(s, k);
        proof {
            lemma_skip_alpha(s@, k as int);
        }
        let id = sub_chars(s, k, e);
        let (mut vals, j) = read_values(s, &id, e);
        proof {
            lemma_p_values(s@, id@, e as int);
        }
        if vals.len() == 0 {
            return None;
        }
        match read_props(s, j) {
            Some((mut rest, j2)) => {
                let ghost a = vals@;
                let ghost b = rest@;
                vals.append(&mut rest);
                proof {
                    assert(token_views(vals@) =~= token_views(a) + token_views(b));
                }
                Some((vals, j2))
            },
            None => None,
        }
    } else {
        Some((Vec::new(), i))
    }
}

/// The nodes of a sequence from `i` on, and the index after them.
fn read_nodes(s: &Vec<char>, i: usize) -> (r: Option<(Vec<GameNode>, usize)>)
    requires
        i <= s@.len(),
    ensures
        match r {
            Some((v, j)) => p_nodes(s@, i as int) == Some((node_views(v@), j as int)),
            None => p_nodes(s@, i as int) is None,
        },
    decreases s@.len() - i,
{
    let k = skip_ws_at(s, i);
    proof {
        lemma_skip_ws(s@, i as int);
    }
    if k < s.len() && s[k] == ';' {
        proof {
            lemma_p_props(s@, k + 1);
        }
        match read_props(s, k + 1) {
            Some((tokens, j)) => match read_nodes(s, j) {
                Some((mut rest, e)) => {
                    let ghost before = rest@;
                    let node = GameNode { tokens };
                    rest.insert(0, node);
                    proof {
                        assert(node_views(rest@) =~= seq![token_views(node.tokens@)] + node_views(
                            before,
                        ));
                    }
                    Some((rest, e))
                },
                None => None,
            },
            None => None,
        }
    } else {
        Some((Vec::new(), i))
    }
}

/// A game tree at `i`, and the index after it.
fn read_tree(s: &Vec<char>, i: usize) -> (r: Option<(GameTree, usize)>)
    requires
        i <= s@.len(),
    ensures
        match r {
            Some((t, j)) => p_tree(s@, i as int) == Some((tree_view(t), j as int)),
            None => p_tree(s@, i as int) is None,
        },
        r matches Some((_, j)) ==> i < j <= s@.len(),
    decreases s@.len() - i, 0int,
{
    if i < s.len() && s[i] == '(' {
        proof {
            lemma_p_nodes(s@, i + 1);
        }
        match read_nodes(s, i + 1) {
            Some((nodes, j)) => {
                if nodes.len() == 0 {
                    return None;
                }
                match read_vars(s, j) {
                    Some((variations, e)) => {
                        let k = skip_ws_at(s, e);
                        proof {
                            lemma_skip_ws(s@, e as int);
                        }
                        if k < s.len() && s[k] == ')' {
                            let t = GameTree { nodes, variations };
                            let ghost w = p_vars(s@, j as int).unwrap().0;
                            proof {
                                assert(tree_view(t).variations =~= w);
                            }
                            Some((t, k + 1))
                        } else {
                            None
                        }
                    },
                    None => None,
                }
            },
            None => None,
        }
    } else {
        None
    }
}

/// The variations from `i` on, and the index after them.
fn read_vars(s: &Vec<char>, i: usize) -> (r: Option<(Vec<GameTree>, usize)>)
    requires
        i <= s@.len(),
    ensures
        match r {
            Some((v, j)) => p_vars(s@, i as int) matches Some((w, pj)) && views_match(v@, w) && pj
                == j,
            None => p_vars(s@, i as int) is None,
        },
        r matches Some((_, j)) ==> i <= j <= s@.len(),
    decreases s@.len() - i, 1int,
{
    let k = skip_ws_at(s, i);
    proof {
        lemma_skip_ws(s@, i as int);
    }
    if k < s.len() && s[k] == '(' {
        match read_tree(s, k) {
            Some((t, j)) => {
                if j <= i || j > s.len() {
                    return None;
                }
                match read_vars(s, j) {
                    Some((mut rest, e)) => {
                        let ghost before = rest@;
                        let ghost tv = tree_view(t);
                        rest.insert(0, t);
                        proof {
                            let w = p_vars(s@, i as int).unwrap().0;
                            assert(w =~= seq![tv] + p_vars(s@, j as int).unwrap().0);
                            assert forall|m: int| 0 <= m < rest@.len() implies tree_view(
                                #[trigger] rest@[m],
                            ) == w[m] by {
                                if m > 0 {
                                    assert(rest@[m] == before[m - 1]);
                                }
                            }
                        }
                        Some((rest, e))
                    },
                    None => None,
                }
            },
            None => None,
        }
    } else {
        Some((Vec::new(), i))
    }
}

/// Each node of the tree but the first of the root is free of root tokens, and so is each
/// variation.
fn roots_ok(t: &GameTree, is_root: bool) -> (r: bool)
    ensures
        r == roots_placed(tree_view(*t), is_root),
    decreases *t,
{
    let ghost tv = tree_view(*t);
    let first: usize = if is_root {
        1
    } else {
        0
    };
    let mut n: usize = first;
    while n < t.nodes.len()
        invariant
            tv == tree_view(*t),
            first <= n,
            first == (if is_root { 1int } else { 0int }),
            forall|a: int, k: int| #![trigger tv.nodes[a][k]]
                first <= a < n && a < tv.nodes.len() && 0 <= k < tv.nodes[a].len()
                    ==> !is_root_token(tv.nodes[a][k]),
        decreases t.nodes@.len() - n,
    {
        let node = &t.nodes[n];
        let mut k: usize = 0;
        while k < node.tokens.len()
            invariant
                tv == tree_view(*t),
                first <= n < t.nodes@.len(),
                first == (if is_root { 1int } else { 0int }),
                *node == t.nodes@[n as int],
                0 <= k <= node.tokens@.len(),
                forall|a: int, m: int| #![trigger tv.nodes[a][m]]
                    first <= a < n && a < tv.nodes.len() && 0 <= m < tv.nodes[a].len()
                        ==> !is_root_token(tv.nodes[a][m]),
                forall|m: int| #![trigger tv.nodes[n as int][m]]
                    0 <= m < k ==> !is_root_token(tv.nodes[n as int][m]),
            decreases node.tokens@.len() - k,
        {
            assert(tv.nodes.len() == t.nodes@.len());
            assert(tv.nodes[n as int].len() == node.tokens@.len());
            assert(tv.nodes[n as int][k as int] == node.tokens@[k as int]@);
            if let SgfToken::Size(_, _) = &node.tokens[k] {
                assert(is_root_token(tv.nodes[n as int][k as int]));
                assert(!roots_placed(tv, is_root));
                return false;
            }
            k += 1;
        }
        n += 1;
    }
    let mut v: usize = 0;
    while v < t.variations.len()
        invariant
            tv == tree_view(*t),
            0 <= v <= t.variations@.len(),
            forall|a: int, k: int| #![trigger tv.nodes[a][k]]
                first <= a < tv.nodes.len() && 0 <= k < tv.nodes[a].len()
                    ==> !is_root_token(tv.nodes[a][k]),
            forall|m: int| 0 <= m < v ==> roots_placed(#[trigger] tv.variations[m], false),
        decreases t.variations@.len() - v,
    {
        assert(tv.variations[v as int] == tree_view(t.variations@[v as int]));
        if !roots_ok(&t.variations[v], false) {
            return false;
        }
        v += 1;
    }
    true
}

/// Reads SGF text into a game tree. The text must start with a game tree, and what follows
/// it is not read. The result is `ParseError` where the text does not start with a game tree
/// by the grammar above, and `InvalidRootTokenPlacement` where a node other than the first of
/// the root holds a root property.
pub fn parse(input: &str) -> (r: Result<GameTree, SgfError>)
    ensures
        match p_tree(input@, 0) {
            Some((t, _)) => if roots_placed(t, true) {
                r matches Ok(g) && tree_view(g) == t
            } else {
                r == Err::<GameTree, SgfError>(SgfError { kind: SgfErrorKind::InvalidRootTokenPlacement })
            },
            None => r == Err::<GameTree, SgfError>(SgfError { kind: SgfErrorKind::ParseError }),
        },
{
    let s = chars_of(input);
    match read_tree(&s, 0) {
        Some((t, _)) => if roots_ok(&t, true) {
            Ok(t)
        } else {
            Err(SgfError::from_kind(SgfErrorKind::InvalidRootTokenPlacement))
        },
        None => Err(SgfError::from_kind(SgfErrorKind::ParseError)),
    }
}

} // verus!
