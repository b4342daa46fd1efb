use vstd::prelude::*;
use vstd::multiset::Multiset;
use crate::piece::{Piece, same_piece};

verus! {

broadcast use vstd::seq_lib::group_to_multiset_ensures, vstd::multiset::group_multiset_axioms;

/// A player's pieces: a multiset of pieces.
pub struct Hand {
    pieces: Vec<Piece>,
}

impl View for Hand {
    type V = Multiset<Piece>;

    open spec fn view(&self) -> Multiset<Piece> {
        self.items().to_multiset()
    }
}

/// Position of `p` in `s`, if it occurs.
fn position(s: &Vec<Piece>, p: Piece) -> (r: Option<usize>)
    ensures
        match r {
            Some(k) => k < s@.len() && s@[k as int] == p,
            None => !s@.contains(p),
        },
{
    let mut k: usize = 0;
    while k < s.len()
        invariant
            k <= s@.len(),
            forall|j: int| 0 <= j < k ==> s@[j] != p,
        decreases s@.len() - k,
    {
        if same_piece(s[k], p) {
            return Some(k);
        }
        k += 1;
    }
    None
}

/// A copy of `s`, element by element.
fn copy_pieces(s: &Vec<Piece>) -> (r: Vec<Piece>)
    ensures
        r@ == s@,
{
    let mut r: Vec<Piece> = Vec::new();
    let mut k: usize = 0;
    while k < s.len()
        invariant
            k <= s@.len(),
            r@ == s@.take(k as int),
        decreases s@.len() - k,
    {
        r.push(s[k]);
        k += 1;
        assert(r@ == s@.take(k as int));
    }
    assert(r@ == s@);
    r
}

impl Hand {
    /// The held pieces in storage order; their order carries no meaning.
    pub closed spec fn items(&self) -> Seq<Piece> {
        self.pieces@
    }

    pub fn new() -> (r: Hand)
        ensures
            r@ == Multiset::<Piece>::empty(),
    {
        let r = Hand { pieces: Vec::new() };
        assert(r.pieces@ == Seq::<Piece>::empty());
        r
    }

    /// A hand holding exactly the pieces of `v`.
    pub fn from_vec(v: Vec<Piece>) -> (r: Hand)
        ensures
            r@ == v@.to_multiset(),
    {
        Hand { pieces: v }
    }

    /// Number of pieces held.
    pub fn len(&self) -> (r: usize)
        ensures
            r == self@.len(),
    {
        self.pieces.len()
    }

    pub fn is_empty(&self) -> (r: bool)
        ensures
            r == (self@.len() == 0),
    {
        self.pieces.len() == 0
    }

    /// How many copies of `p` are held.
    pub fn count(&self, p: Piece) -> (r: usize)
        ensures
            r == self@.count(p),
    {
        let mut n: usize = 0;
        let mut k: usize = 0;
        while k < self.pieces.len()
            invariant
                k <= self.pieces@.len(),
                n == self.pieces@.take(k as int).to_multiset().count(p),
                n <= k,
            decreases self.pieces@.len() - k,
        {
            assert(self.pieces@.take(k + 1) == self.pieces@.take(k as int).push(self.pieces@[k as int]));
            if same_piece(self.pieces[k], p) {
                n += 1;
            }
            k += 1;
        }
        assert(self.pieces@.take(k as int) == self.pieces@);
        n
    }

    /// Adds every piece of `ps`.
    pub fn add_all(&mut self, ps: &Vec<Piece>)
        ensures
            final(self)@ == old(self)@.add(ps@.to_multiset()),
    {
        let ghost start = self@;
        let mut k: usize = 0;
        while k < ps.len()
            invariant
                k <= ps@.len(),
                self@ == start.add(ps@.take(k as int).to_multiset()),
            decreases ps@.len() - k,
        {
            assert(ps@.take(k + 1) == ps@.take(k as int).push(ps@[k as int]));
            self.pieces.push(ps[k]);
            k += 1;
            assert(self@ =~= start.add(ps@.take(k as int).to_multiset()));
        }
        assert(ps@.take(k as int) == ps@);
    }

    /// The held pieces as a list.
    pub fn to_vec(&self) -> (r: Vec<Piece>)
        ensures
            r@.to_multiset() == self@,
    {
        copy_pieces(&self.pieces)
    }

    /// Removes the pieces of `ps` if all of them are held (with multiplicity);
    /// otherwise leaves the hand unchanged. Returns whether they were removed.
    pub fn try_remove(&mut self, ps: &Vec<Piece>) -> (r: bool)
        ensures
            r == ps@.to_multiset().subset_of(old(self)@),
            r ==> final(self)@ == old(self)@.sub(ps@.to_multiset()),
            !r ==> *final(self) == *old(self),
    {
        let ghost start = self@;
        let mut w = copy_pieces(&self.pieces);
        let mut i: usize = 0;
        while i < ps.len()
            invariant
                i <= ps@.len(),
                start == self@,
                ps@.take(i as int).to_multiset().subset_of(start),
                w@.to_multiset() == start.sub(ps@.take(i as int).to_multiset()),
            decreases ps@.len() - i,
        {
            let p = ps[i];
            let ghost before = ps@.take(i as int).to_multiset();
            assert(ps@.take(i + 1) == ps@.take(i as int).push(p));
            match position(&w, p) {
                None => {
                    proof {
                        assert(w@.to_multiset().count(p) == 0);
                        assert(start.count(p) == before.count(p));
                        let front = ps@.take(i + 1);
                        let back = ps@.skip(i + 1);
                        assert(front + back == ps@);
                        vstd::seq_lib::lemma_multiset_commutative(front, back);
                        assert(ps@.to_multiset().count(p) > start.count(p));
                    }
                    return false;
                },
                Some(k) => {
                    let ghost wold = w@;
                    w.remove(k);
                    proof {
                        assert(w@.to_multiset() == wold.to_multiset().remove(p));
                        assert(w@.to_multiset() =~= start.sub(ps@.take(i + 1).to_multiset()));
                        assert(ps@.take(i + 1).to_multiset().subset_of(start));
                    }
                },
            }
            i += 1;
        }
        assert(ps@.take(i as int) == ps@);
        self.pieces = w;
        true
    }
}

} // verus!
