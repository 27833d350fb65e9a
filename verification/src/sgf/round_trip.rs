//! Reading back what was written: the text of a game tree reads as the tree, when each of
//! its properties can be written so (an identifier of letters, a value without `]` or `\`,
//! and the identifier and value give the property back).

use vstd::prelude::*;
use crate::sgf::parser::{
    is_alpha, is_ws, lemma_skip_ws, p_nodes, p_props, p_tree, p_values, p_vars, skip_alpha, skip_ws, token_views, tree_view, value_end,
    TreeView,
};
use crate::sgf::node::{node_text, tokens_text, GameNode};
use crate::sgf::parser::node_views;
use crate::sgf::token::{token_of, token_parts, token_text, SgfToken, TokenView};
use crate::sgf::tree::{nodes_text, tree_text, vars_text, GameTree};

verus! {

/// The text of a list of properties, one after the other.
pub open spec fn toks_text(ts: Seq<TokenView>) -> Seq<char>
    decreases ts.len(),
{
    if ts.len() == 0 {
        Seq::empty()
    } else {
        token_text(ts[0]) + toks_text(ts.drop_first())
    }
}

/// The text of a list of nodes: for each, `;` and its properties.
pub open spec fn nodes_text_v(ns: Seq<Seq<TokenView>>) -> Seq<char>
    decreases ns.len(),
{
    if ns.len() == 0 {
        Seq::empty()
    } else {
        seq![';'] + toks_text(ns[0]) + nodes_text_v(ns.drop_first())
    }
}

/// The text of a tree: `(`, its nodes, its variations, `)`.
pub open spec fn view_text(t: TreeView) -> Seq<char>
    decreases t, t.variations.len() + 2,
{
    seq!['('] + nodes_text_v(t.nodes) + vars_text_from(t, 0) + seq![')']
}

/// The text of the variations of `t` from the `k`-th on.
pub open spec fn vars_text_from(t: TreeView, k: int) -> Seq<char>
    decreases t, t.variations.len() - k + 1,
{
    if k < 0 || k >= t.variations.len() {
        Seq::empty()
    } else {
        view_text(t.variations[k]) + vars_text_from(t, k + 1)
    }
}

/// A value without `]` or `\`.
pub open spec fn plain_value(b: Seq<char>) -> bool {
    forall|i: int| 0 <= i < b.len() ==> #[trigger] b[i] != ']' && b[i] != '\\'
}

/// A property whose text reads back as it: its identifier is made of letters, its value
/// has no `]` or `\`, and they give the property.
pub open spec fn token_writable(t: TokenView) -> bool {
    let (a, b) = token_parts(t);
    &&& a.len() > 0
    &&& forall|i: int| 0 <= i < a.len() ==> #[trigger] is_alpha(a[i])
    &&& plain_value(b)
    &&& token_of(a, b) == t
}

/// Each property of each node can be written.
pub open spec fn nodes_writable(ns: Seq<Seq<TokenView>>) -> bool {
    forall|n: int, k: int| 0 <= n < ns.len() && 0 <= k < ns[n].len() ==> #[trigger] token_writable(ns[n][k])
}

/// A tree that can be written and read back: each sequence has a node, and each property
/// can be written.
pub open spec fn view_writable(t: TreeView) -> bool
    decreases t, t.variations.len() + 2,
{
    t.nodes.len() > 0 && nodes_writable(t.nodes) && vars_writable(t, 0)
}

/// The variations of `t` from the `k`-th on can be written and read back.
pub open spec fn vars_writable(t: TreeView, k: int) -> bool
    decreases t, t.variations.len() - k + 1,
{
    k < 0 || k >= t.variations.len() || (view_writable(t.variations[k]) && vars_writable(t, k + 1))
}

/// `s` holds `x` from `i` on.
pub open spec fn text_at(s: Seq<char>, i: int, x: Seq<char>) -> bool {
    0 <= i && i + x.len() <= s.len() && s.subrange(i, i + x.len()) == x
}

/// Text found at `i` is found piece by piece.
proof fn lemma_text_at_split(s: Seq<char>, i: int, x: Seq<char>, y: Seq<char>)
    requires
        text_at(s, i, x + y),
    ensures
        text_at(s, i, x),
        text_at(s, i + x.len(), y),
        forall|j: int| 0 <= j < x.len() ==> s[i + j] == #[trigger] x[j],
{
    let z = x + y;
    assert forall|j: int| 0 <= j < z.len() implies s[i + j] == #[trigger] z[j] by {
        assert(s.subrange(i, i + z.len())[j] == z[j]);
    }
    assert forall|j: int| 0 <= j < x.len() implies s[i + j] == #[trigger] x[j] by {
        assert(z[j] == x[j]);
    }
    assert(s.subrange(i, i + x.len()) =~= x);
    assert forall|j: int| 0 <= j < y.len() implies s.subrange(i + x.len(), i + x.len() + y.len())[j] == #[trigger] y[j] by {
        assert(z[x.len() + j] == y[j]);
        assert(s[i + (x.len() + j)] == z[x.len() + j]);
    }
    assert(s.subrange(i + x.len(), i + x.len() + y.len()) =~= y);
}

/// The character of `s` at `i + j` is that of the text found at `i`.
proof fn lemma_text_at_index(s: Seq<char>, i: int, x: Seq<char>, j: int)
    requires
        text_at(s, i, x),
        0 <= j < x.len(),
    ensures
        s[i + j] == x[j],
{
    assert(s.subrange(i, i + x.len())[j] == x[j]);
}

/// A value without `]` or `\` ends at the first `]`.
proof fn lemma_value_scan(s: Seq<char>, j: int, e: int)
    requires
        0 <= j <= e < s.len(),
        s[e] == ']',
        forall|m: int| j <= m < e ==> s[m] != ']' && s[m] != '\\',
    ensures
        value_end(s, j) == Some(e),
    decreases e - j,
{
    if j < e {
        lemma_value_scan(s, j + 1, e);
    }
}

/// Letters up to a character that is none end where it stands.
proof fn lemma_skip_alpha_to(s: Seq<char>, i: int, e: int)
    requires
        0 <= i <= e < s.len(),
        forall|m: int| i <= m < e ==> is_alpha(s[m]),
        !is_alpha(s[e]),
    ensures
        skip_alpha(s, i) == e,
    decreases e - i,
{
    if i < e {
        lemma_skip_alpha_to(s, i + 1, e);
    }
}

/// A character that is no white space stops the skipping of white space.
proof fn lemma_skip_ws_none(s: Seq<char>, i: int)
    requires
        0 <= i < s.len(),
        !is_ws(s[i]),
    ensures
        skip_ws(s, i) == i,
{
}

/// One value in brackets, followed by no other, reads as one token.
proof fn lemma_read_value(s: Seq<char>, a: Seq<char>, i: int, b: Seq<char>)
    requires
        text_at(s, i, seq!['['] + b + seq![']']),
        plain_value(b),
        i + b.len() + 2 < s.len(),
        s[i + b.len() + 2] != '[',
        !is_ws(s[i + b.len() + 2]),
    ensures
        p_values(s, a, i) == (seq![token_of(a, b)], i + b.len() + 2),
{
    let x = seq!['['] + b + seq![']'];
    let e = i + b.len() + 1;
    lemma_text_at_index(s, i, x, 0);
    assert(x[0] == '[');
    lemma_skip_ws_none(s, i);
    assert forall|m: int| i + 1 <= m < e implies s[m] != ']' && s[m] != '\\' by {
        lemma_text_at_index(s, i, x, m - i);
        assert(x[m - i] == b[m - i - 1]);
    }
    lemma_text_at_index(s, i, x, b.len() as int + 1);
    assert(x[b.len() as int + 1] == ']');
    lemma_value_scan(s, i + 1, e);
    assert(s.subrange(i + 1, e) =~= b) by {
        assert forall|m: int| 0 <= m < b.len() implies s.subrange(i + 1, e)[m] == b[m] by {
            lemma_text_at_index(s, i, x, m + 1);
        }
    }
    lemma_skip_ws_none(s, e + 1);
    assert(p_values(s, a, e + 1) == (Seq::<TokenView>::empty(), e + 1));
    assert(seq![token_of(a, b)] + Seq::<TokenView>::empty() =~= seq![token_of(a, b)]);
}

/// One property in front of `rest` reads as itself: its identifier is the run of letters
/// at `i`, and its value follows it alone.
#[verifier::spinoff_prover]
#[verifier::rlimit(50)]
proof fn lemma_read_one(s: Seq<char>, i: int, t0: TokenView, rest: Seq<char>)
    requires
        token_writable(t0),
        text_at(s, i, token_text(t0) + rest),
        i + token_text(t0).len() < s.len(),
        s[i + token_text(t0).len()] != '[',
        !is_ws(s[i + token_text(t0).len()]),
    ensures
        skip_ws(s, i) == i,
        0 <= i < s.len() && is_alpha(s[i]),
        skip_alpha(s, i) == i + token_parts(t0).0.len(),
        s.subrange(i, skip_alpha(s, i)) == token_parts(t0).0,
        p_values(s, token_parts(t0).0, skip_alpha(s, i)) == (seq![t0], i + token_text(t0).len()),
{
    let (a, b) = token_parts(t0);
    let v = seq!['['] + b + seq![']'];
    assert(token_text(t0) + rest =~= a + (v + rest));
    lemma_text_at_split(s, i, a, v + rest);
    lemma_text_at_split(s, i + a.len(), v, rest);
    let e1 = i + a.len();
    assert(is_alpha(a[0]));
    assert(s[i + 0] == a[0]);
    lemma_skip_ws_none(s, i);
    assert forall|m: int| i <= m < e1 implies is_alpha(s[m]) by {
        assert(s[i + (m - i)] == a[m - i]);
    }
    assert(v[0] == '[');
    assert(s[e1 + 0] == v[0]);
    lemma_skip_alpha_to(s, i, e1);
    assert(s.subrange(i, e1) =~= a) by {
        assert forall|m: int| 0 <= m < a.len() implies s.subrange(i, e1)[m] == a[m] by {
            assert(s[i + m] == a[m]);
        }
    }
    lemma_read_value(s, a, e1, b);
}

/// The properties of a node followed by `;`, `(` or `)` read as themselves.
#[verifier::spinoff_prover]
#[verifier::rlimit(50)]
proof fn lemma_read_props(s: Seq<char>, i: int, ts: Seq<TokenView>)
    requires
        forall|k: int| 0 <= k < ts.len() ==> token_writable(#[trigger] ts[k]),
        text_at(s, i, toks_text(ts)),
        i + toks_text(ts).len() < s.len(),
        s[i + toks_text(ts).len()] == ';' || s[i + toks_text(ts).len()] == '(' || s[i + toks_text(ts).len()] == ')',
    ensures
        p_props(s, i) == Some((ts, i + toks_text(ts).len())),
    decreases ts.len(),
{
    if ts.len() == 0 {
        lemma_skip_ws_none(s, i);
    } else {
        let t0 = ts[0];
        let rest = ts.drop_first();
        assert(token_writable(t0));
        assert(toks_text(ts) == token_text(t0) + toks_text(rest));
        lemma_text_at_split(s, i, token_text(t0), toks_text(rest));
        let e2 = i + token_text(t0).len();
        assert forall|k: int| 0 <= k < rest.len() implies token_writable(#[trigger] rest[k]) by {
            assert(rest[k] == ts[k + 1]);
        }
        if rest.len() > 0 {
            let (a1, b1) = token_parts(rest[0]);
            assert(token_writable(rest[0]));
            assert(toks_text(rest) =~= a1 + (seq!['['] + b1 + seq![']'] + toks_text(rest.drop_first())));
            lemma_text_at_split(s, e2, a1, seq!['['] + b1 + seq![']'] + toks_text(rest.drop_first()));
            assert(s[e2 + 0] == a1[0]);
            assert(is_alpha(a1[0]));
        }
        lemma_read_one(s, i, t0, toks_text(rest));
        lemma_read_props(s, e2, rest);
        assert(seq![t0] + rest =~= ts);
    }
}

/// The nodes of a sequence followed by `(` or `)` read as themselves.
proof fn lemma_read_nodes(s: Seq<char>, i: int, ns: Seq<Seq<TokenView>>)
    requires
        nodes_writable(ns),
        text_at(s, i, nodes_text_v(ns)),
        i + nodes_text_v(ns).len() < s.len(),
        s[i + nodes_text_v(ns).len()] == '(' || s[i + nodes_text_v(ns).len()] == ')',
    ensures
        p_nodes(s, i) == Some((ns, i + nodes_text_v(ns).len())),
    decreases ns.len(),
{
    if ns.len() == 0 {
        lemma_skip_ws_none(s, i);
    } else {
        let n0 = ns[0];
        let rest = ns.drop_first();
        assert(nodes_text_v(ns) =~= seq![';'] + (toks_text(n0) + nodes_text_v(rest)));
        lemma_text_at_split(s, i, seq![';'], toks_text(n0) + nodes_text_v(rest));
        lemma_text_at_split(s, i + 1, toks_text(n0), nodes_text_v(rest));
        assert(seq![';'][0] == ';');
        assert(s[i + 0] == ';');
        lemma_skip_ws_none(s, i);
        let j = i + 1 + toks_text(n0).len();
        assert forall|k: int| 0 <= k < n0.len() implies token_writable(#[trigger] n0[k]) by {
            assert(token_writable(ns[0][k]));
        }
        assert forall|n: int, k: int| 0 <= n < rest.len() && 0 <= k < rest[n].len() implies #[trigger] token_writable(rest[n][k]) by {
            assert(rest[n] == ns[n + 1]);
            assert(token_writable(ns[n + 1][k]));
        }
        if rest.len() > 0 {
            assert(nodes_text_v(rest) =~= seq![';'] + (toks_text(rest[0]) + nodes_text_v(rest.drop_first())));
            lemma_text_at_index(s, j, nodes_text_v(rest), 0);
        }
        lemma_read_props(s, i + 1, n0);
        lemma_read_nodes(s, j, rest);
        assert(seq![n0] + rest =~= ns);
    }
}

/// The text of a tree that can be written reads as the tree.
proof fn lemma_read_tree(s: Seq<char>, i: int, t: TreeView)
    requires
        view_writable(t),
        text_at(s, i, view_text(t)),
    ensures
        p_tree(s, i) == Some((t, i + view_text(t).len())),
    decreases t, t.variations.len() + 2,
{
    let nt = nodes_text_v(t.nodes);
    let vt = vars_text_from(t, 0);
    assert(view_text(t) =~= seq!['('] + (nt + (vt + seq![')'])));
    lemma_text_at_split(s, i, seq!['('], nt + (vt + seq![')']));
    lemma_text_at_split(s, i + 1, nt, vt + seq![')']);
    lemma_text_at_split(s, i + 1 + nt.len(), vt, seq![')']);
    assert(seq!['('][0] == '(');
    assert(s[i + 0] == '(');
    let j = i + 1 + nt.len();
    let e = j + vt.len();
    lemma_text_at_index(s, e, seq![')'], 0);
    if t.variations.len() > 0 {
        assert(vt =~= view_text(t.variations[0]) + vars_text_from(t, 1));
        lemma_text_at_split(s, j, view_text(t.variations[0]), vars_text_from(t, 1));
        let w = t.variations[0];
        assert(view_text(w) =~= seq!['('] + (nodes_text_v(w.nodes) + (vars_text_from(w, 0) + seq![')'])));
        assert(s[j + 0] == view_text(w)[0]);
    }
    lemma_read_nodes(s, i + 1, t.nodes);
    lemma_read_vars(s, j, t, 0);
    assert(t.variations.subrange(0, t.variations.len() as int) =~= t.variations);
    lemma_skip_ws_none(s, e);
}

/// The text of the variations of `t` from the `k`-th on, followed by `)`, reads as them.
proof fn lemma_read_vars(s: Seq<char>, i: int, t: TreeView, k: int)
    requires
        0 <= k <= t.variations.len(),
        vars_writable(t, k),
        text_at(s, i, vars_text_from(t, k)),
        i + vars_text_from(t, k).len() < s.len(),
        s[i + vars_text_from(t, k).len()] == ')',
    ensures
        p_vars(s, i) == Some((t.variations.subrange(k, t.variations.len() as int), i + vars_text_from(t, k).len())),
    decreases t, t.variations.len() - k + 1,
{
    if k == t.variations.len() {
        lemma_skip_ws_none(s, i);
        assert(t.variations.subrange(k, k) =~= Seq::<TreeView>::empty());
    } else {
        let w = t.variations[k];
        lemma_text_at_split(s, i, view_text(w), vars_text_from(t, k + 1));
        assert(view_text(w) =~= seq!['('] + (nodes_text_v(w.nodes) + (vars_text_from(w, 0) + seq![')'])));
        assert(s[i + 0] == view_text(w)[0]);
        lemma_skip_ws_none(s, i);
        let j = i + view_text(w).len();
        if k + 1 < t.variations.len() {
            let w1 = t.variations[k + 1];
            assert(vars_text_from(t, k + 1) =~= view_text(w1) + vars_text_from(t, k + 2));
            assert(view_text(w1) =~= seq!['('] + (nodes_text_v(w1.nodes) + (vars_text_from(w1, 0) + seq![')'])));
            lemma_text_at_split(s, j, view_text(w1), vars_text_from(t, k + 2));
            assert(s[j + 0] == view_text(w1)[0]);
        }
        lemma_read_tree(s, i, w);
        lemma_read_vars(s, j, t, k + 1);
        assert(seq![w] + t.variations.subrange(k + 1, t.variations.len() as int) =~= t.variations.subrange(k, t.variations.len() as int));
    }
}

/// Reading the text of a tree that can be written gives the tree back, and reads the whole
/// text.
pub proof fn lemma_written_tree_reads_back(t: TreeView)
    requires
        view_writable(t),
    ensures
        p_tree(view_text(t), 0) == Some((t, view_text(t).len() as int)),
{
    let s = view_text(t);
    assert(s.subrange(0, s.len() as int) =~= s);
    lemma_read_tree(s, 0, t);
}

/// Appending a property appends its text.
proof fn lemma_toks_push(x: Seq<TokenView>, y: TokenView)
    ensures
        toks_text(x.push(y)) == toks_text(x) + token_text(y),
    decreases x.len(),
{
    if x.len() == 0 {
        assert(x.push(y).drop_first() =~= Seq::<TokenView>::empty());
        assert(toks_text(Seq::<TokenView>::empty()) == Seq::<char>::empty());
        assert(x.push(y)[0] == y);
        assert(toks_text(x) == Seq::<char>::empty());
        assert(toks_text(x.push(y)) =~= toks_text(x) + token_text(y));
    } else {
        assert(x.push(y).drop_first() =~= x.drop_first().push(y));
        lemma_toks_push(x.drop_first(), y);
        assert(toks_text(x.push(y)) =~= toks_text(x) + token_text(y));
    }
}

/// The text of the first `n` tokens is the text of their views.
proof fn lemma_tokens_text_views(s: Seq<SgfToken>, n: int)
    requires
        0 <= n <= s.len(),
    ensures
        tokens_text(s, n) == toks_text(token_views(s).take(n)),
    decreases n,
{
    if n > 0 {
        lemma_tokens_text_views(s, n - 1);
        assert(token_views(s).take(n) =~= token_views(s).take(n - 1).push(s[n - 1]@));
        lemma_toks_push(token_views(s).take(n - 1), s[n - 1]@);
    } else {
        assert(token_views(s).take(0) =~= Seq::<TokenView>::empty());
    }
}

/// Appending a node appends its text.
proof fn lemma_nodes_push(x: Seq<Seq<TokenView>>, y: Seq<TokenView>)
    ensures
        nodes_text_v(x.push(y)) == nodes_text_v(x) + seq![';'] + toks_text(y),
    decreases x.len(),
{
    if x.len() == 0 {
        assert(x.push(y).drop_first() =~= Seq::<Seq<TokenView>>::empty());
        assert(nodes_text_v(Seq::<Seq<TokenView>>::empty()) == Seq::<char>::empty());
        assert(x.push(y)[0] == y);
        assert(nodes_text_v(x) == Seq::<char>::empty());
        assert(nodes_text_v(x.push(y)) =~= nodes_text_v(x) + seq![';'] + toks_text(y));
    } else {
        assert(x.push(y).drop_first() =~= x.drop_first().push(y));
        lemma_nodes_push(x.drop_first(), y);
        assert(nodes_text_v(x.push(y)) =~= nodes_text_v(x) + seq![';'] + toks_text(y));
    }
}

/// The text of the first `n` nodes is the text of their views.
proof fn lemma_nodes_text_views(ns: Seq<GameNode>, n: int)
    requires
        0 <= n <= ns.len(),
    ensures
        nodes_text(ns, n) == nodes_text_v(node_views(ns).take(n)),
    decreases n,
{
    if n > 0 {
        lemma_nodes_text_views(ns, n - 1);
        let node = ns[n - 1];
        assert(node_views(ns).take(n) =~= node_views(ns).take(n - 1).push(token_views(node.tokens@)));
        lemma_nodes_push(node_views(ns).take(n - 1), token_views(node.tokens@));
        lemma_tokens_text_views(node.tokens@, node.tokens@.len() as int);
        assert(token_views(node.tokens@).take(node.tokens@.len() as int) =~= token_views(node.tokens@));
        assert(node_text(node) == seq![';'] + toks_text(token_views(node.tokens@)));
        assert(nodes_text(ns, n) =~= nodes_text_v(node_views(ns).take(n)));
    } else {
        assert(node_views(ns).take(0) =~= Seq::<Seq<TokenView>>::empty());
    }
}

/// The text of a tree is the text of its view.
proof fn lemma_tree_text_view(g: GameTree)
    ensures
        tree_text(g) == view_text(tree_view(g)),
    decreases g, g.variations@.len() + 2,
{
    let tv = tree_view(g);
    lemma_nodes_text_views(g.nodes@, g.nodes@.len() as int);
    assert(node_views(g.nodes@).take(g.nodes@.len() as int) =~= tv.nodes);
    lemma_vars_text_view(g, g.variations@.len() as int);
    assert(vars_text_from(tv, g.variations@.len() as int) == Seq::<char>::empty());
    assert(vars_text(g, g.variations@.len() as int) + Seq::<char>::empty() =~= vars_text(g, g.variations@.len() as int));
}

/// The text of the first `k` variations of a tree, then that of its view's variations from
/// the `k`-th on, is that of all its view's variations.
proof fn lemma_vars_text_view(g: GameTree, k: int)
    requires
        0 <= k <= g.variations@.len(),
    ensures
        vars_text(g, k) + vars_text_from(tree_view(g), k) == vars_text_from(tree_view(g), 0),
    decreases g, k,
{
    let tv = tree_view(g);
    if k == 0 {
        assert(vars_text(g, 0) + vars_text_from(tv, 0) =~= vars_text_from(tv, 0));
    } else {
        lemma_vars_text_view(g, k - 1);
        let w = g.variations@[k - 1];
        lemma_tree_text_view(w);
        assert(tv.variations[k - 1] == tree_view(w));
        assert(vars_text_from(tv, k - 1) == view_text(tv.variations[k - 1]) + vars_text_from(tv, k));
        assert(vars_text(g, k) == vars_text(g, k - 1) + tree_text(w));
        assert(vars_text(g, k) + vars_text_from(tv, k) =~= vars_text(g, k - 1) + vars_text_from(tv, k - 1));
    }
}

/// Reading the text that `GameTree::into` writes gives the tree back, when each of its
/// sequences has a node and each of its properties can be written (see `token_writable`).
pub proof fn lemma_parse_written_tree(g: GameTree)
    requires
        view_writable(tree_view(g)),
    ensures
        p_tree(tree_text(g), 0) == Some((tree_view(g), tree_text(g).len() as int)),
{
    lemma_tree_text_view(g);
    lemma_written_tree_reads_back(tree_view(g));
}

} // verus!
