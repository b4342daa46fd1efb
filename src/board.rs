use vstd::prelude::*;
use vstd::multiset::Multiset;
use crate::piece::Piece;

verus! {

/// A placed piece: its cell and the piece.
pub type Entry = ((i32, i32), Piece);

pub open spec fn cell_of(e: Entry) -> (int, int) {
    (e.0.0 as int, e.0.1 as int)
}

/// The map from cells to pieces that a list of entries describes.
pub open spec fn entries_map(s: Seq<Entry>) -> Map<(int, int), Piece>
    decreases s.len(),
{
    if s.len() == 0 {
        Map::empty()
    } else {
        entries_map(s.drop_last()).insert(cell_of(s.last()), s.last().1)
    }
}

/// No two entries share a cell.
pub open spec fn cells_unique(s: Seq<Entry>) -> bool {
    forall|i: int, j: int|
        0 <= i < s.len() && 0 <= j < s.len() && i != j ==> cell_of(#[trigger] s[i]) != cell_of(
            #[trigger] s[j],
        )
}

pub proof fn lemma_entries_map(s: Seq<Entry>)
    requires
        cells_unique(s),
    ensures
        forall|c: (int, int)|
            #[trigger] entries_map(s).dom().contains(c) <==> exists|i: int|
                0 <= i < s.len() && cell_of(s[i]) == c,
        forall|i: int| 0 <= i < s.len() ==> #[trigger] entries_map(s)[cell_of(s[i])] == s[i].1,
        entries_map(s).dom().finite(),
        entries_map(s).dom().len() == s.len(),
    decreases s.len(),
{
    if s.len() > 0 {
        let t = s.drop_last();
        assert(cells_unique(t));
        lemma_entries_map(t);
        assert forall|c: (int, int)|
            #[trigger] entries_map(s).dom().contains(c) <==> exists|i: int|
                0 <= i < s.len() && cell_of(s[i]) == c by {
            if entries_map(s).dom().contains(c) && c != cell_of(s.last()) {
                let i = choose|i: int| 0 <= i < t.len() && cell_of(t[i]) == c;
                assert(cell_of(s[i]) == c);
            }
            if exists|i: int| 0 <= i < s.len() && cell_of(s[i]) == c {
                let i = choose|i: int| 0 <= i < s.len() && cell_of(s[i]) == c;
                if i < t.len() {
                    assert(cell_of(t[i]) == c);
                }
            }
        }
        assert forall|i: int| 0 <= i < s.len() implies #[trigger] entries_map(s)[cell_of(s[i])]
            == s[i].1 by {
            if i < t.len() {
                assert(cell_of(t[i]) == cell_of(s[i]));
                assert(cell_of(s[i]) != cell_of(s[s.len() - 1]));
            }
        }
        assert(!entries_map(t).dom().contains(cell_of(s.last()))) by {
            if entries_map(t).dom().contains(cell_of(s.last())) {
                let i = choose|i: int| 0 <= i < t.len() && cell_of(t[i]) == cell_of(s.last());
                assert(cell_of(s[i]) == cell_of(s[s.len() - 1]));
            }
        }
    }
}

/// The placed pieces of a game, each on its own cell.
pub struct Board {
    entries: Vec<Entry>,
}

impl View for Board {
    type V = Map<(int, int), Piece>;

    open spec fn view(&self) -> Map<(int, int), Piece> {
        entries_map(self.entries())
    }
}

impl Board {
    pub open spec fn wf(&self) -> bool {
        cells_unique(self.entries())
    }

    /// The entries in the order they were placed.
    pub closed spec fn entries(&self) -> Seq<Entry> {
        self.entries@
    }

    /// Number of placed pieces.
    pub open spec fn size(&self) -> nat {
        self.entries().len()
    }

    pub proof fn lemma_view(&self)
        requires
            self.wf(),
        ensures
            forall|c: (int, int)|
                #[trigger] self@.dom().contains(c) <==> exists|i: int|
                    0 <= i < self.entries().len() && cell_of(self.entries()[i]) == c,
            forall|i: int|
                0 <= i < self.entries().len() ==> #[trigger] self@[cell_of(self.entries()[i])]
                    == self.entries()[i].1,
            self@.dom().finite(),
            self@.dom().len() == self.size(),
            forall|c: (int, int)|
                #[trigger] self@.dom().contains(c) ==> i32::MIN <= c.0 <= i32::MAX && i32::MIN
                    <= c.1 <= i32::MAX,
    {
        lemma_entries_map(self.entries@);
    }

    pub fn new() -> (r: Board)
        ensures
            r.wf(),
            r@ == Map::<(int, int), Piece>::empty(),
            r.size() == 0,
    {
        Board { entries: Vec::new() }
    }

    pub fn len(&self) -> (r: usize)
        ensures
            r == self.size(),
    {
        self.entries.len()
    }

    /// Position of the entry on cell `(x, y)`, if any.
    pub fn find(&self, x: i32, y: i32) -> (r: Option<usize>)
        requires
            self.wf(),
        ensures
            match r {
                Some(i) => i < self.size() && cell_of(self.entries()[i as int]) == (
                x as int,
                y as int,
                ),
                None => !self@.dom().contains((x as int, y as int)),
            },
    {
        proof {
            self.lemma_view();
        }
        let mut i: usize = 0;
        while i < self.entries.len()
            invariant
                i <= self.entries@.len(),
                forall|j: int| 0 <= j < i ==> cell_of(self.entries@[j]) != (x as int, y as int),
            decreases self.entries@.len() - i,
        {
            let e = self.entries[i];
            if e.0.0 == x && e.0.1 == y {
                return Some(i);
            }
            i += 1;
        }
        None
    }

    /// The piece on cell `(x, y)`, if any.
    pub fn get(&self, x: i32, y: i32) -> (r: Option<Piece>)
        requires
            self.wf(),
        ensures
            r == (if self@.dom().contains((x as int, y as int)) {
                Some(self@[(x as int, y as int)])
            } else {
                None::<Piece>
            }),
    {
        proof {
            self.lemma_view();
        }
        match self.find(x, y) {
            Some(i) => Some(self.entries[i].1),
            None => None,
        }
    }

    pub fn contains(&self, x: i32, y: i32) -> (r: bool)
        requires
            self.wf(),
        ensures
            r == self@.dom().contains((x as int, y as int)),
    {
        proof {
            self.lemma_view();
        }
        self.find(x, y).is_some()
    }

    /// The entry at position `i` of placement order.
    pub fn entry(&self, i: usize) -> (r: Entry)
        requires
            i < self.size(),
        ensures
            r == self.entries()[i as int],
    {
        self.entries[i]
    }

    /// Places `p` on the free cell `(x, y)`.
    pub fn insert(&mut self, x: i32, y: i32, p: Piece)
        requires
            old(self).wf(),
            !old(self)@.dom().contains((x as int, y as int)),
        ensures
            final(self).wf(),
            final(self)@ == old(self)@.insert((x as int, y as int), p),
            final(self).entries() == old(self).entries().push(((x, y), p)),
    {
        proof {
            self.lemma_view();
        }
        self.entries.push(((x, y), p));
        proof {
            let s = self.entries@;
            assert(s.drop_last() == old(self).entries@);
            assert forall|i: int, j: int|
                0 <= i < s.len() && 0 <= j < s.len() && i != j implies cell_of(#[trigger] s[i])
                != cell_of(#[trigger] s[j]) by {
                if i == s.len() - 1 {
                    assert(old(self)@.dom().contains(cell_of(s[j])) ==> true);
                    assert(cell_of(old(self).entries@[j]) == cell_of(s[j]));
                } else if j == s.len() - 1 {
                    assert(cell_of(old(self).entries@[i]) == cell_of(s[i]));
                }
            }
        }
    }

    /// An independent copy of this board.
    pub fn duplicate(&self) -> (r: Board)
        ensures
            r.entries() == self.entries(),
            r@ == self@,
            r.wf() == self.wf(),
    {
        let mut entries: Vec<Entry> = Vec::new();
        let mut i: usize = 0;
        while i < self.entries.len()
            invariant
                i <= self.entries@.len(),
                entries@ == self.entries@.take(i as int),
            decreases self.entries@.len() - i,
        {
            entries.push(self.entries[i]);
            i += 1;
            assert(entries@ == self.entries@.take(i as int));
        }
        assert(entries@ == self.entries@);
        Board { entries }
    }

    /// The placed pieces with their cells, in placement order.
    pub fn to_vec(&self) -> (r: Vec<Entry>)
        ensures
            r@ == self.entries(),
    {
        let b = self.duplicate();
        b.entries
    }
}

/// A piece to be placed, with the cell it goes to.
pub type Placement = (Piece, i32, i32);

pub open spec fn target(p: Placement) -> (int, int) {
    (p.1 as int, p.2 as int)
}

/// The board `b` after placing the pieces of `s` in order.
pub open spec fn placed(b: Map<(int, int), Piece>, s: Seq<Placement>) -> Map<(int, int), Piece>
    decreases s.len(),
{
    if s.len() == 0 {
        b
    } else {
        placed(b, s.drop_last()).insert(target(s.last()), s.last().0)
    }
}

/// The pieces of a list of entries.
pub open spec fn entry_pieces(s: Seq<Entry>) -> Seq<Piece> {
    s.map_values(|e: Entry| e.1)
}

/// The board entry a placement makes.
pub open spec fn entry_of(p: Placement) -> Entry {
    ((p.1, p.2), p.0)
}

/// Every target cell is free on `b`, and no two placements share a cell.
pub open spec fn fits(b: Map<(int, int), Piece>, s: Seq<Placement>) -> bool {
    &&& forall|i: int| 0 <= i < s.len() ==> !b.dom().contains(target(#[trigger] s[i]))
    &&& forall|i: int, j: int|
        0 <= i < s.len() && 0 <= j < s.len() && i != j ==> target(#[trigger] s[i]) != target(
            #[trigger] s[j],
        )
}

impl Board {
    /// Decides whether the placements of `ps` fit on this board.
    pub fn fits_all(&self, ps: &Vec<Placement>) -> (r: bool)
        requires
            self.wf(),
        ensures
            r == fits(self@, ps@),
    {
        let n = ps.len();
        let mut i: usize = 0;
        while i < n
            invariant
                self.wf(),
                n == ps@.len(),
                i <= n,
                forall|a: int| 0 <= a < i ==> !self@.dom().contains(target(#[trigger] ps@[a])),
                forall|a: int, b: int|
                    0 <= a < i && 0 <= b < i && a != b ==> target(#[trigger] ps@[a]) != target(
                        #[trigger] ps@[b],
                    ),
            decreases n - i,
        {
            let p = ps[i];
            if self.contains(p.1, p.2) {
                return false;
            }
            let mut j: usize = 0;
            while j < i
                invariant
                    n == ps@.len(),
                    i < n,
                    p == ps@[i as int],
                    j <= i,
                    forall|b: int| 0 <= b < j ==> target(#[trigger] ps@[b]) != target(p),
                decreases i - j,
            {
                let q = ps[j];
                if q.1 == p.1 && q.2 == p.2 {
                    assert(target(ps@[j as int]) == target(ps@[i as int]));
                    return false;
                }
                j += 1;
            }
            i += 1;
        }
        true
    }

    /// Places every piece of `ps`.
    pub fn place_all(&mut self, ps: &Vec<Placement>)
        requires
            old(self).wf(),
            fits(old(self)@, ps@),
        ensures
            final(self).wf(),
            final(self)@ == placed(old(self)@, ps@),
            final(self).size() == old(self).size() + ps@.len(),
            final(self).entries() == old(self).entries() + ps@.map_values(|p: Placement| entry_of(p)),
    {
        let ghost start = self@;
        let n = ps.len();
        let mut i: usize = 0;
        while i < n
            invariant
                self.wf(),
                n == ps@.len(),
                i <= n,
                fits(start, ps@),
                self@ == placed(start, ps@.take(i as int)),
                self.size() == old(self).size() + i,
                self.entries() == old(self).entries() + ps@.take(i as int).map_values(|p: Placement| entry_of(p)),
                forall|j: int| i <= j < n ==> !self@.dom().contains(target(#[trigger] ps@[j])),
            decreases n - i,
        {
            let p = ps[i];
            let ghost before = self@;
            self.insert(p.1, p.2, p.0);
            proof {
                assert(ps@.take(i + 1).map_values(|p: Placement| entry_of(p)) == ps@.take(i as int).map_values(
                    |p: Placement| entry_of(p),
                ).push(entry_of(p)));
                assert(ps@.take(i + 1).drop_last() == ps@.take(i as int));
                assert forall|j: int| i + 1 <= j < n implies !self@.dom().contains(
                    target(#[trigger] ps@[j]),
                ) by {
                    assert(target(ps@[j]) != target(ps@[i as int]));
                }
            }
            i += 1;
        }
        assert(ps@.take(n as int) == ps@);
    }

    /// The placed pieces, as a multiset.
    pub open spec fn pieces(&self) -> Multiset<Piece> {
        entry_pieces(self.entries()).to_multiset()
    }
}

} // verus!
