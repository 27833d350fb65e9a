//! A game node: the properties of one move or setup.

use vstd::prelude::*;
use crate::sgf::text::string_of;
use crate::sgf::token::{coords_ok, token_text, SgfToken, TokenView};

verus! {

/// A game node, holding its tokens.
#[derive(Debug, PartialEq)]
pub struct GameNode {
    pub tokens: Vec<SgfToken>,
}

/// True for an unknown token.
pub open spec fn is_unknown(t: TokenView) -> bool {
    t is Unknown
}

/// True for an invalid token.
pub open spec fn is_invalid(t: TokenView) -> bool {
    t is Invalid
}

/// The views of the first `n` tokens that are unknown (or invalid when `invalid` holds),
/// in order.
pub open spec fn tokens_where(s: Seq<SgfToken>, invalid: bool, n: int) -> Seq<TokenView>
    decreases n,
{
    if n <= 0 {
        Seq::empty()
    } else {
        let prev = tokens_where(s, invalid, n - 1);
        if (invalid && is_invalid(s[n - 1]@)) || (!invalid && is_unknown(s[n - 1]@)) {
            prev.push(s[n - 1]@)
        } else {
            prev
        }
    }
}

/// The views of the tokens that a list of references points to.
pub open spec fn views_of(r: Seq<&SgfToken>) -> Seq<TokenView> {
    r.map_values(|t: &SgfToken| t@)
}

/// The text of the first `n` tokens, one after the other.
pub open spec fn tokens_text(s: Seq<SgfToken>, n: int) -> Seq<char>
    decreases n,
{
    if n <= 0 {
        Seq::empty()
    } else {
        tokens_text(s, n - 1) + token_text(s[n - 1]@)
    }
}

/// The text of a node: `;` and its tokens.
pub open spec fn node_text(n: GameNode) -> Seq<char> {
    seq![';'] + tokens_text(n.tokens@, n.tokens@.len() as int)
}

/// Every token of the node can be written out.
pub open spec fn node_ok(n: GameNode) -> bool {
    forall|k: int| 0 <= k < n.tokens@.len() ==> coords_ok(#[trigger] n.tokens@[k]@)
}

impl GameNode {
    fn tokens_by(&self, invalid: bool) -> (r: Vec<&SgfToken>)
        ensures
            views_of(r@) == tokens_where(self.tokens@, invalid, self.tokens@.len() as int),
    {
        let mut res: Vec<&SgfToken> = Vec::new();
        let mut k: usize = 0;
        while k < self.tokens.len()
            invariant
                0 <= k <= self.tokens@.len(),
                views_of(res@) == tokens_where(self.tokens@, invalid, k as int),
            decreases self.tokens@.len() - k,
        {
            let t = &self.tokens[k];
            let keep = match t {
                SgfToken::Unknown(_) => !invalid,
                SgfToken::Invalid(_) => invalid,
                _ => false,
            };
            if keep {
                let ghost before = res@;
                res.push(t);
                proof {
                    assert(views_of(res@) =~= views_of(before).push(t@));
                }
            }
            k += 1;
        }
        res
    }

    /// The unknown tokens, in order.
    pub fn get_unknown_tokens(&self) -> (r: Vec<&SgfToken>)
        ensures
            views_of(r@) == tokens_where(self.tokens@, false, self.tokens@.len() as int),
    {
        self.tokens_by(false)
    }

    /// The invalid tokens, in order.
    pub fn get_invalid_tokens(&self) -> (r: Vec<&SgfToken>)
        ensures
            views_of(r@) == tokens_where(self.tokens@, true, self.tokens@.len() as int),
    {
        self.tokens_by(true)
    }

    /// The characters of the node written out.
    pub fn text(&self) -> (r: Vec<char>)
        requires
            node_ok(*self),
        ensures
            r@ == node_text(*self),
    {
        let mut res: Vec<char> = Vec::new();
        res.push(';');
        let mut k: usize = 0;
        while k < self.tokens.len()
            invariant
                node_ok(*self),
                0 <= k <= self.tokens@.len(),
                res@ == seq![';'] + tokens_text(self.tokens@, k as int),
            decreases self.tokens@.len() - k,
        {
            let t = self.tokens[k].text();
            let mut i: usize = 0;
            let ghost before = res@;
            while i < t.len()
                invariant
                    0 <= i <= t@.len(),
                    res@ == before + t@.subrange(0, i as int),
                decreases t@.len() - i,
            {
                res.push(t[i]);
                i += 1;
            }
            proof {
                assert(t@.subrange(0, t@.len() as int) == t@);
                assert(res@ =~= seq![';'] + tokens_text(self.tokens@, k + 1));
            }
            k += 1;
        }
        res
    }

    /// The node written out: `;` and its tokens.
    pub fn into(self) -> (r: String)
        requires
            node_ok(self),
        ensures
            r@ == node_text(self),
    {
        let t = self.text();
        string_of(t.as_slice())
    }
}

} // verus!
