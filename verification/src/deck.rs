use rand::prelude::SliceRandom;
use rand::Rng;
use vstd::prelude::*;

verus! {

/// Relies on rand's `SliceRandom::shuffle`: it permutes the slice in place
/// by element swaps, so the contents as a multiset do not change.
#[verifier::external_body]
fn shuffle_vec<T>(v: &mut Vec<T>)
    ensures
        final(v)@.to_multiset() == old(v)@.to_multiset(),
{
    let mut rng = rand::thread_rng();
    v.as_mut_slice().shuffle(&mut rng);
}

/// Relies on rand's `Rng::gen_range`: it returns a value inside the given
/// range, and the range must not be empty.
#[verifier::external_body]
fn random_below(n: usize) -> (r: usize)
    requires
        n > 0,
    ensures
        r < n,
{
    rand::thread_rng().gen_range(0..n)
}

/// A pile of tokens addressed from its top (the highest index): draws,
/// peeks and inserts, some at positions chosen at random.
pub trait Deck {
    type TokenType;

    /// The tokens, bottom first.
    spec fn tokens(&self) -> Seq<Self::TokenType>;

    /// Randomly reorders the deck; the tokens themselves stay.
    fn shuffle(&mut self)
        ensures
            final(self).tokens().to_multiset() == old(self).tokens().to_multiset(),
    ;

    /// Removes and returns the top token; `None` on an empty deck.
    fn draw(&mut self) -> (r: Option<Self::TokenType>)
        ensures
            old(self).tokens().len() == 0 ==> r is None && final(self).tokens() == old(
                self,
            ).tokens(),
            old(self).tokens().len() > 0 ==> r == Some(old(self).tokens().last())
                && final(self).tokens() == old(self).tokens().drop_last(),
    ;

    /// Removes and returns a token at a random position; `None` on an
    /// empty deck.
    fn draw_random(&mut self) -> (r: Option<Self::TokenType>)
        ensures
            old(self).tokens().len() == 0 ==> r is None && final(self).tokens() == old(
                self,
            ).tokens(),
            old(self).tokens().len() > 0 ==> exists|i: int|
                0 <= i < old(self).tokens().len() && r == Some(old(self).tokens()[i])
                    && final(self).tokens() == #[trigger] old(self).tokens().remove(i),
    ;

    /// References to the top `count` tokens, topmost first; fewer if the
    /// deck is smaller.
    fn peek(&self, count: usize) -> (r: Vec<&Self::TokenType>)
        ensures
            r@.len() == (if count as int <= self.tokens().len() {
                count as int
            } else {
                self.tokens().len() as int
            }),
            forall|i: int|
                0 <= i < r@.len() ==> *(#[trigger] r@[i]) == self.tokens()[self.tokens().len() - 1
                    - i],
    ;

    /// A reference to the top token; `None` on an empty deck.
    fn peek_top(&self) -> (r: Option<&Self::TokenType>)
        ensures
            self.tokens().len() == 0 ==> r is None,
            self.tokens().len() > 0 ==> (r matches Some(v) && *v == self.tokens().last()),
    ;

    /// Places a token on top.
    fn put_top(&mut self, token: Self::TokenType)
        ensures
            final(self).tokens() == old(self).tokens().push(token),
    ;

    /// Places a token at the bottom.
    fn put_bottom(&mut self, token: Self::TokenType)
        ensures
            final(self).tokens() == old(self).tokens().insert(0, token),
    ;

    /// Places a token at a random position strictly below the top; the
    /// deck must not be empty.
    fn put_random(&mut self, token: Self::TokenType)
        requires
            old(self).tokens().len() > 0,
        ensures
            exists|i: int|
                0 <= i < old(self).tokens().len()
                    && final(self).tokens() == #[trigger] old(self).tokens().insert(i, token),
    ;
}

impl<T> Deck for Vec<T> {
    type TokenType = T;

    open spec fn tokens(&self) -> Seq<T> {
        self@
    }

    fn shuffle(&mut self) {
        shuffle_vec(self);
    }

    fn draw(&mut self) -> (r: Option<T>) {
        self.pop()
    }

    fn draw_random(&mut self) -> (r: Option<T>) {
        if self.len() == 0 {
            return None;
        }

        let n = random_below(self.len());
        let t = self.remove(n);
        proof {
            assert(self@ == old(self)@.remove(n as int));
        }
        Some(t)
    }

    fn peek(&self, count: usize) -> (r: Vec<&T>) {
        let n = if count < self.len() {
            count
        } else {
            self.len()
        };
        let mut r: Vec<&T> = Vec::new();
        let mut i: usize = 0;
        while i < n
            invariant
                n <= self@.len(),
                i <= n,
                r@.len() == i,
                forall|j: int| 0 <= j < i ==> *(#[trigger] r@[j]) == self@[self@.len() - 1 - j],
            decreases n - i,
        {
            r.push(&self[self.len() - 1 - i]);
            i = i + 1;
        }
        r
    }

    fn peek_top(&self) -> (r: Option<&T>) {
        if self.len() == 0 {
            return None;
        }
        Some(&self[self.len() - 1])
    }

    fn put_top(&mut self, token: T) {
        self.push(token)
    }

    fn put_bottom(&mut self, token: T) {
        self.insert(0, token)
    }

    fn put_random(&mut self, token: T) {
        let n = random_below(self.len());
        self.insert(n, token);
        proof {
            assert(self@ == old(self)@.insert(n as int, token));
        }
    }
}

} // verus!
