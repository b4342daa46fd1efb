use vstd::prelude::*;
use rand::seq::SliceRandom;
use crate::board::{Board, Placement, cell_of, entry_of, fits, placed};
use crate::hand::Hand;
use crate::piece::{COPIES, FULL_SET, KINDS, Piece, full_set, kind, kind_at};
use crate::rules::{board_valid, cell_invalid, linear, run_ok, scan_run};

verus! {

broadcast use vstd::seq_lib::group_to_multiset_ensures, vstd::multiset::group_multiset_axioms;

/// Relies on rand's `SliceRandom::shuffle` with `thread_rng`: it only swaps
/// elements, so the result is a permutation of the input. (`thread_rng` panics
/// only when the operating system cannot seed it, which no input can cause.)
#[verifier::external_body]
fn shuffle_pieces(v: &mut Vec<Piece>)
    ensures
        final(v)@.len() == old(v)@.len(),
        final(v)@.to_multiset() == old(v)@.to_multiset(),
{
    v.shuffle(&mut rand::thread_rng());
}

/// The multiset of `s[j..]` is that of `s[j+1..]` with `s[j]` added.
proof fn lemma_skip_multiset(s: Seq<Piece>, j: int)
    requires
        0 <= j < s.len(),
    ensures
        s.skip(j).to_multiset() == s.skip(j + 1).to_multiset().insert(s[j]),
{
    let one = seq![s[j]];
    assert(one + s.skip(j + 1) == s.skip(j));
    vstd::seq_lib::lemma_multiset_commutative(one, s.skip(j + 1));
    assert(one == Seq::<Piece>::empty().push(s[j]));
    assert(s.skip(j).to_multiset() =~= s.skip(j + 1).to_multiset().insert(s[j]));
}

/// The number of pieces `deal(n)` hands out from a bag of `len` pieces.
pub open spec fn dealt_count(n: int, len: int) -> int {
    if n < len {
        n
    } else {
        len
    }
}

/// The board and the bag of one game.
pub struct Game {
    pub board: Board,
    pub bag: Vec<Piece>,
}

impl Game {
    pub open spec fn wf(&self) -> bool {
        self.board.wf()
    }

    /// Places the pieces of `ps` when all their cells are free and distinct, and
    /// returns how many were placed; otherwise changes nothing.
    pub fn play(&mut self, ps: &Vec<Placement>) -> (r: Option<u32>)
        requires
            old(self).wf(),
            ps@.len() <= u32::MAX,
        ensures
            final(self).wf(),
            final(self).bag == old(self).bag,
            r.is_some() == fits(old(self).board@, ps@),
            match r {
                Some(n) => {
                    &&& n == ps@.len()
                    &&& final(self).board@ == placed(old(self).board@, ps@)
                    &&& final(self).board.size() == old(self).board.size() + ps@.len()
                    &&& final(self).board.entries() == old(self).board.entries() + ps@.map_values(
                        |p: Placement| entry_of(p),
                    )
                },
                None => final(self).board == old(self).board,
            },
    {
        if !self.board.fits_all(ps) {
            return None;
        }
        self.board.place_all(ps);
        Some(ps.len() as u32)
    }

    /// A new game: an empty board and a complete set of pieces in random order.
    pub fn new() -> (r: Game)
        ensures
            r.wf(),
            r.board@ == Map::<(int, int), Piece>::empty(),
            r.board.size() == 0,
            r.bag@.len() == FULL_SET,
            r.bag@.to_multiset() == full_set().to_multiset(),
    {
        let mut bag: Vec<Piece> = Vec::new();
        let mut k: usize = 0;
        while k < KINDS
            invariant
                k <= KINDS,
                bag@ == full_set().take(3 * k),
            decreases KINDS - k,
        {
            let p = kind_at(k);
            let mut c: usize = 0;
            while c < COPIES
                invariant
                    k < KINDS,
                    c <= COPIES,
                    p == kind(k as int),
                    bag@ == full_set().take(3 * k + c),
                decreases COPIES - c,
            {
                assert((3 * k + c) / 3 == k);
                assert(full_set().take(3 * k + c + 1) == full_set().take(3 * k + c).push(p));
                bag.push(p);
                c += 1;
            }
            k += 1;
        }
        assert(full_set().take(3 * KINDS) == full_set());
        shuffle_pieces(&mut bag);
        Game { board: Board::new(), bag }
    }

    /// Puts the bag in a new random order.
    pub fn shuffle(&mut self)
        ensures
            final(self).board == old(self).board,
            final(self).bag@.len() == old(self).bag@.len(),
            final(self).bag@.to_multiset() == old(self).bag@.to_multiset(),
    {
        shuffle_pieces(&mut self.bag);
    }

    /// Takes the top `k` pieces off the bag.
    fn draw(&mut self, k: usize) -> (r: Vec<Piece>)
        requires
            k <= old(self).bag@.len(),
        ensures
            final(self).board == old(self).board,
            final(self).bag@ == old(self).bag@.take(old(self).bag@.len() - k),
            r@.len() == k,
            r@.to_multiset() == old(self).bag@.skip(old(self).bag@.len() - k).to_multiset(),
    {
        let ghost b0 = self.bag@;
        let ghost len0 = b0.len() as int;
        let mut out: Vec<Piece> = Vec::new();
        let mut i: usize = 0;
        while i < k
            invariant
                i <= k,
                k <= len0,
                b0 == old(self).bag@,
                len0 == b0.len(),
                self.board == old(self).board,
                self.bag@ == b0.take(len0 - i),
                out@.len() == i,
                out@.to_multiset() == b0.skip(len0 - i).to_multiset(),
            decreases k - i,
        {
            let p = self.bag.pop().unwrap();
            proof {
                lemma_skip_multiset(b0, len0 - i - 1);
                assert(b0.take(len0 - i).drop_last() == b0.take(len0 - i - 1));
            }
            out.push(p);
            i += 1;
        }
        out
    }

    /// Deals up to `n` pieces from the bag (all of it when it holds fewer).
    pub fn deal(&mut self, n: usize) -> (r: Hand)
        ensures
            ({
                let len = old(self).bag@.len() as int;
                let k = dealt_count(n as int, len);
                &&& final(self).board == old(self).board
                &&& final(self).bag@ == old(self).bag@.take(len - k)
                &&& r@ == old(self).bag@.skip(len - k).to_multiset()
                &&& r@.len() == k
            }),
            r@.len() <= n,
            final(self).bag@.len() == old(self).bag@.len() - r@.len(),
    {
        let k = if n < self.bag.len() {
            n
        } else {
            self.bag.len()
        };
        let drawn = self.draw(k);
        Hand::from_vec(drawn)
    }

    /// Swaps `pieces` for as many pieces from the top of the bag, then shuffles the
    /// bag. Fails, changing nothing, when the bag holds fewer pieces than offered.
    pub fn exchange(&mut self, pieces: Vec<Piece>) -> (r: Option<Vec<Piece>>)
        ensures
            r.is_some() == (pieces@.len() <= old(self).bag@.len()),
            match r {
                Some(drawn) => {
                    let d = old(self).bag@.len() - pieces@.len();
                    &&& final(self).board == old(self).board
                    &&& drawn@.len() == pieces@.len()
                    &&& drawn@.to_multiset() == old(self).bag@.skip(d).to_multiset()
                    &&& final(self).bag@.len() == old(self).bag@.len()
                    &&& final(self).bag@.to_multiset() == old(self).bag@.take(d).to_multiset().add(
                        pieces@.to_multiset(),
                    )
                },
                None => *final(self) == *old(self),
            },
    {
        if pieces.len() > self.bag.len() {
            return None;
        }
        let ghost d = self.bag@.len() - pieces@.len();
        let ghost kept = self.bag@.take(d);
        let drawn = self.draw(pieces.len());
        self.put_back(&pieces);
        proof {
            vstd::seq_lib::lemma_multiset_commutative(kept, pieces@);
        }
        self.shuffle();
        Some(drawn)
    }

    /// Puts pieces on top of the bag.
    pub fn put_back(&mut self, pieces: &Vec<Piece>)
        ensures
            final(self).board == old(self).board,
            final(self).bag@ == old(self).bag@ + pieces@,
    {
        let ghost start = self.bag@;
        let mut i: usize = 0;
        while i < pieces.len()
            invariant
                i <= pieces@.len(),
                self.bag@ == start + pieces@.take(i as int),
                self.board == old(self).board,
            decreases pieces@.len() - i,
        {
            assert(start + pieces@.take(i + 1) == (start + pieces@.take(i as int)).push(pieces@[i as int]));
            self.bag.push(pieces[i]);
            i += 1;
        }
        assert(pieces@.take(i as int) == pieces@);
    }

    /// Whether the cells lie on one straight line.
    pub fn is_linear(coords: &Vec<(i32, i32)>) -> (r: bool)
        ensures
            r == linear(coords@),
    {
        let n = coords.len();
        if n <= 1 {
            return true;
        }
        let first = coords[0];
        let mut same_x = true;
        let mut same_y = true;
        let mut i: usize = 0;
        while i < n
            invariant
                n == coords@.len(),
                first == coords@[0],
                i <= n,
                same_x == (forall|j: int| 0 <= j < i ==> (#[trigger] coords@[j]).0 == first.0),
                same_y == (forall|j: int| 0 <= j < i ==> (#[trigger] coords@[j]).1 == first.1),
            decreases n - i,
        {
            let c = coords[i];
            if c.0 != first.0 {
                same_x = false;
            }
            if c.1 != first.1 {
                same_y = false;
            }
            i += 1;
        }
        same_x || same_y
    }
}

/// `n` copies of `false`.
fn all_false(n: usize) -> (r: Vec<bool>)
    ensures
        r@.len() == n,
        forall|i: int| 0 <= i < n ==> !(#[trigger] r@[i]),
{
    let mut r: Vec<bool> = Vec::new();
    let mut i: usize = 0;
    while i < n
        invariant
            i <= n,
            r@.len() == i,
            forall|j: int| 0 <= j < i ==> !(#[trigger] r@[j]),
        decreases n - i,
    {
        r.push(false);
        i += 1;
    }
    r
}

/// For every entry whose run in one orientation has been checked, whether that run
/// is invalid.
pub open spec fn memo_ok(board: &Board, checked: Seq<bool>, bad: Seq<bool>, horizontal: bool) -> bool {
    &&& checked.len() == board.size()
    &&& bad.len() == board.size()
    &&& forall|e: int|
        0 <= e < board.size() && #[trigger] checked[e] ==> bad[e] == !run_ok(
            board@,
            cell_of(board.entries()[e]),
            horizontal,
        )
}

/// Records the verdict `ok` for every entry of a scanned run.
fn mark_run(
    board: &Board,
    checked: &mut Vec<bool>,
    bad: &mut Vec<bool>,
    run: &Vec<usize>,
    ok: bool,
    horizontal: bool,
)
    requires
        memo_ok(board, old(checked)@, old(bad)@, horizontal),
        forall|j: int|
            0 <= j < run@.len() ==> #[trigger] run@[j] < board.size() && ok == run_ok(
                board@,
                cell_of(board.entries()[run@[j] as int]),
                horizontal,
            ),
    ensures
        memo_ok(board, final(checked)@, final(bad)@, horizontal),
        forall|e: int| 0 <= e < board.size() && old(checked)@[e] ==> #[trigger] final(checked)@[e],
{
    let mut j: usize = 0;
    while j < run.len()
        invariant
            j <= run@.len(),
            memo_ok(board, checked@, bad@, horizontal),
            forall|e: int| 0 <= e < board.size() && old(checked)@[e] ==> #[trigger] checked@[e],
            forall|j: int|
                0 <= j < run@.len() ==> #[trigger] run@[j] < board.size() && ok == run_ok(
                    board@,
                    cell_of(board.entries()[run@[j] as int]),
                    horizontal,
                ),
        decreases run@.len() - j,
    {
        let e = run[j];
        assert(run@[j as int] == e);
        checked.set(e, true);
        bad.set(e, !ok);
        j += 1;
    }
}

impl Game {
    /// The cells of `board` that lie in an invalid row or column.
    ///
    /// Each run is scanned once per orientation: the verdict is recorded for all
    /// of its cells.
    pub fn invalid(board: &Board) -> (r: Vec<(i32, i32)>)
        requires
            board.wf(),
        ensures
            forall|c: (int, int)|
                cell_invalid(board@, c) <==> exists|i: int|
                    0 <= i < r@.len() && (#[trigger] r@[i].0 as int, r@[i].1 as int) == c,
            r@.no_duplicates(),
            r@.len() == 0 <==> board_valid(board@),
    {
        proof {
            board.lemma_view();
        }
        let n = board.len();
        let mut checked_h = all_false(n);
        let mut bad_h = all_false(n);
        let mut checked_v = all_false(n);
        let mut bad_v = all_false(n);
        let mut i: usize = n;
        while i > 0
            invariant
                board.wf(),
                n == board.size(),
                i <= n,
                memo_ok(board, checked_h@, bad_h@, true),
                memo_ok(board, checked_v@, bad_v@, false),
                forall|e: int| i <= e < n ==> #[trigger] checked_h@[e],
                forall|e: int| i <= e < n ==> #[trigger] checked_v@[e],
            decreases i,
        {
            i -= 1;
            let ((x, y), _) = board.entry(i);
            proof {
                board.lemma_view();
                assert(board@.dom().contains(cell_of(board.entries()[i as int])));
            }
            if !checked_h[i] {
                let (run, ok) = scan_run(board, x, y, true);
                mark_run(board, &mut checked_h, &mut bad_h, &run, ok, true);
                checked_h.set(i, true);
                bad_h.set(i, !ok);
            }
            if !checked_v[i] {
                let (run, ok) = scan_run(board, x, y, false);
                mark_run(board, &mut checked_v, &mut bad_v, &run, ok, false);
                checked_v.set(i, true);
                bad_v.set(i, !ok);
            }
        }
        let mut out: Vec<(i32, i32)> = Vec::new();
        let ghost mut src: Seq<int> = Seq::empty();
        let mut e: usize = 0;
        while e < n
            invariant
                board.wf(),
                n == board.size(),
                e <= n,
                memo_ok(board, checked_h@, bad_h@, true),
                memo_ok(board, checked_v@, bad_v@, false),
                forall|f: int| 0 <= f < n ==> #[trigger] checked_h@[f],
                forall|f: int| 0 <= f < n ==> #[trigger] checked_v@[f],
                src.len() == out@.len(),
                forall|k: int|
                    0 <= k < src.len() ==> 0 <= #[trigger] src[k] < e && board.entries()[src[k]].0
                        == out@[k] && (bad_h@[src[k]] || bad_v@[src[k]]),
                forall|k1: int, k2: int| 0 <= k1 < k2 < src.len() ==> src[k1] < src[k2],
                forall|f: int|
                    0 <= f < e && (bad_h@[f] || bad_v@[f]) ==> exists|k: int|
                        0 <= k < src.len() && #[trigger] src[k] == f,
            decreases n - e,
        {
            if bad_h[e] || bad_v[e] {
                let (c, _) = board.entry(e);
                out.push(c);
                proof {
                    let old_src = src;
                    src = src.push(e as int);
                    assert(src[src.len() - 1] == e);
                    assert forall|f: int|
                        0 <= f < e && (bad_h@[f] || bad_v@[f]) implies exists|k: int|
                            0 <= k < src.len() && #[trigger] src[k] == f by {
                        let k = choose|k: int| 0 <= k < old_src.len() && #[trigger] old_src[k] == f;
                        assert(src[k] == f);
                    }
                }
            }
            e += 1;
        }
        proof {
            board.lemma_view();
            let b = board@;
            let s = board.entries();
            assert forall|c: (int, int)|
                cell_invalid(b, c) <==> exists|i: int|
                    0 <= i < out@.len() && (#[trigger] out@[i].0 as int, out@[i].1 as int) == c by {
                if cell_invalid(b, c) {
                    let f = choose|f: int| 0 <= f < s.len() && cell_of(s[f]) == c;
                    assert(checked_h@[f] && checked_v@[f]);
                    assert(bad_h@[f] == !run_ok(b, cell_of(s[f]), true));
                    assert(bad_v@[f] == !run_ok(b, cell_of(s[f]), false));
                    assert(bad_h@[f] || bad_v@[f]);
                    let k = choose|k: int| 0 <= k < src.len() && #[trigger] src[k] == f;
                    assert((out@[k].0 as int, out@[k].1 as int) == c);
                }
                if exists|i: int|
                    0 <= i < out@.len() && (#[trigger] out@[i].0 as int, out@[i].1 as int) == c {
                    let i = choose|i: int|
                        0 <= i < out@.len() && (#[trigger] out@[i].0 as int, out@[i].1 as int)
                            == c;
                    let f = src[i];
                    assert(src[i] == f);
                    assert(cell_of(s[f]) == c);
                    assert(checked_h@[f] && checked_v@[f]);
                    assert(bad_h@[f] == !run_ok(b, cell_of(s[f]), true));
                    assert(bad_v@[f] == !run_ok(b, cell_of(s[f]), false));
                    assert(b.dom().contains(c));
                    assert(cell_invalid(b, c));
                }
            }
            assert forall|k1: int, k2: int|
                0 <= k1 < out@.len() && 0 <= k2 < out@.len() && k1 != k2 implies out@[k1]
                != out@[k2] by {
                if k1 < k2 {
                    assert(src[k1] < src[k2]);
                } else {
                    assert(src[k2] < src[k1]);
                }
                assert(cell_of(s[src[k1]]) != cell_of(s[src[k2]]));
            }
            if out@.len() == 0 {
                assert forall|c: (int, int)| #[trigger] b.dom().contains(c) implies run_ok(
                    b,
                    c,
                    true,
                ) && run_ok(b, c, false) by {
                    if !(run_ok(b, c, true) && run_ok(b, c, false)) {
                        assert(cell_invalid(b, c));
                    }
                }
            } else {
                let c = (out@[0].0 as int, out@[0].1 as int);
                assert(cell_invalid(b, c));
            }
        }
        out
    }
}

} // verus!
