//! Coordinates helpers and the iterator over the stones of a chain.

use vstd::prelude::*;

pub mod coord;

verus! {

/// Walks the circular list of stones of a chain: starting at `origin`, each stone points
/// to the next one in `next_stone`, and the walk ends when it comes back to `origin`.
pub struct CircularGroupIter<'a> {
    pub next_stone: &'a [u16],
    pub origin: usize,
    pub next: Option<usize>,
}

impl<'a> CircularGroupIter<'a> {
    /// Starts a walk at `origin`.
    pub fn new(origin: usize, next_stone: &'a [u16]) -> (r: Self)
        ensures
            r.origin == origin,
            r.next == Some(origin),
            r.next_stone@ == next_stone@,
    {
        CircularGroupIter { next_stone, origin, next: Some(origin) }
    }

    /// Returns the current stone and moves to the one after it; `None` once the walk is
    /// back at its origin.
    pub fn next(&mut self) -> (r: Option<usize>)
        requires
            old(self).next matches Some(s) ==> s < old(self).next_stone@.len(),
        ensures
            r == old(self).next,
            final(self).origin == old(self).origin,
            final(self).next_stone@ == old(self).next_stone@,
            final(self).next == (match old(self).next {
                Some(s) => if old(self).next_stone@[s as int] as usize == old(self).origin {
                    None
                } else {
                    Some(old(self).next_stone@[s as int] as usize)
                },
                None => None,
            }),
    {
        let ret = self.next;
        match self.next {
            Some(s) => {
                let n = self.next_stone[s] as usize;
                if n == self.origin {
                    self.next = None;
                } else {
                    self.next = Some(n);
                }
            },
            None => {},
        }
        ret
    }
}

} // verus!
