use vstd::prelude::*;
use crate::board::{Board, cell_of};
use crate::piece::{Piece, same_piece};

verus! {

/// The cell `k` steps away from `c`, along a row or along a column.
pub open spec fn step(c: (int, int), k: int, horizontal: bool) -> (int, int) {
    if horizontal {
        (c.0 + k, c.1)
    } else {
        (c.0, c.1 + k)
    }
}

/// `j` lies between 0 and `k`, both included.
pub open spec fn between(j: int, k: int) -> bool {
    (0 <= j && j <= k) || (k <= j && j <= 0)
}

/// Every cell from `c` to `k` steps away from it is occupied: the cell `k` steps
/// away belongs to the run through `c`.
pub open spec fn linked(b: Map<(int, int), Piece>, c: (int, int), k: int, horizontal: bool) -> bool {
    forall|j: int| between(j, k) ==> b.dom().contains(#[trigger] step(c, j, horizontal))
}

/// The maximal run through the occupied cell `c` is valid: its pieces all have the
/// colour of `c`'s piece or all have its shape, and no piece occurs twice in it.
pub open spec fn run_ok(b: Map<(int, int), Piece>, c: (int, int), horizontal: bool) -> bool {
    &&& ((forall|k: int| #[trigger]
        linked(b, c, k, horizontal) ==> b[step(c, k, horizontal)].1 == b[c].1) || (forall|k: int|
        #[trigger] linked(b, c, k, horizontal) ==> b[step(c, k, horizontal)].0 == b[c].0))
    &&& forall|k1: int, k2: int|
        #[trigger] linked(b, c, k1, horizontal) && #[trigger] linked(b, c, k2, horizontal) && k1
            != k2 ==> b[step(c, k1, horizontal)] != b[step(c, k2, horizontal)]
}

/// An occupied cell lies in an invalid row or column.
pub open spec fn cell_invalid(b: Map<(int, int), Piece>, c: (int, int)) -> bool {
    b.dom().contains(c) && !(run_ok(b, c, true) && run_ok(b, c, false))
}

/// Every row and column through every occupied cell is valid.
pub open spec fn board_valid(b: Map<(int, int), Piece>) -> bool {
    forall|c: (int, int)| #[trigger] b.dom().contains(c) ==> run_ok(b, c, true) && run_ok(b, c, false)
}

/// A list of pieces forms a valid run: one shared colour or one shared shape, no repeats.
pub open spec fn pieces_ok(s: Seq<Piece>) -> bool {
    &&& ((forall|i: int| 0 <= i < s.len() ==> (#[trigger] s[i]).1 == s[0].1) || (forall|i: int|
        0 <= i < s.len() ==> (#[trigger] s[i]).0 == s[0].0))
    &&& forall|i: int, j: int| 0 <= i < s.len() && 0 <= j < s.len() && i != j ==> s[i] != s[j]
}

/// Cells on one straight line: none, one, or all in one column or all in one row.
pub open spec fn linear(s: Seq<(i32, i32)>) -> bool {
    s.len() <= 1 || (forall|i: int| 0 <= i < s.len() ==> (#[trigger] s[i]).0 == s[0].0) || (
    forall|i: int| 0 <= i < s.len() ==> (#[trigger] s[i]).1 == s[0].1)
}

/// Decides `pieces_ok`.
pub fn pieces_form_run(s: &Vec<Piece>) -> (r: bool)
    ensures
        r == pieces_ok(s@),
{
    let n = s.len();
    if n == 0 {
        return true;
    }
    let first = s[0];
    let mut same_color = true;
    let mut same_shape = true;
    let mut distinct = true;
    let mut i: usize = 0;
    while i < n
        invariant
            n == s@.len(),
            n > 0,
            first == s@[0],
            i <= n,
            same_color == (forall|j: int| 0 <= j < i ==> (#[trigger] s@[j]).1 == first.1),
            same_shape == (forall|j: int| 0 <= j < i ==> (#[trigger] s@[j]).0 == first.0),
            distinct == (forall|a: int, b: int| 0 <= a < i && 0 <= b < n && a != b ==> s@[a] != s@[b]),
        decreases n - i,
    {
        let p = s[i];
        if p.1 != first.1 {
            same_color = false;
        }
        if p.0 != first.0 {
            same_shape = false;
        }
        let mut j: usize = 0;
        let mut unique = true;
        while j < n
            invariant
                n == s@.len(),
                i < n,
                p == s@[i as int],
                j <= n,
                unique == (forall|b: int| 0 <= b < j && b != i ==> s@[i as int] != s@[b]),
            decreases n - j,
        {
            if j != i && same_piece(p, s[j]) {
                unique = false;
            }
            j += 1;
        }
        if !unique {
            distinct = false;
        }
        proof {
            if distinct {
                assert forall|a: int, b: int|
                    0 <= a < i + 1 && 0 <= b < n && a != b implies s@[a] != s@[b] by {}
            }
        }
        i += 1;
    }
    (same_color || same_shape) && distinct
}

/// The cells from `lo` to `hi` steps away from `c` are occupied, and the cells just
/// beyond both ends are not: they form the maximal run through `c`.
pub open spec fn run_extent(b: Map<(int, int), Piece>, c: (int, int), lo: int, hi: int, horizontal: bool) -> bool {
    &&& lo <= 0 <= hi
    &&& forall|j: int| lo <= j <= hi ==> b.dom().contains(#[trigger] step(c, j, horizontal))
    &&& !b.dom().contains(step(c, lo - 1, horizontal))
    &&& !b.dom().contains(step(c, hi + 1, horizontal))
}

proof fn lemma_extent_linked(
    b: Map<(int, int), Piece>,
    c: (int, int),
    lo: int,
    hi: int,
    horizontal: bool,
    k0: int,
)
    requires
        run_extent(b, c, lo, hi, horizontal),
        lo <= k0 <= hi,
    ensures
        forall|m: int|
            #[trigger] linked(b, step(c, k0, horizontal), m, horizontal) <==> lo <= k0 + m <= hi,
{
    let d = step(c, k0, horizontal);
    assert forall|m: int| #[trigger] linked(b, d, m, horizontal) <==> lo <= k0 + m <= hi by {
        if lo <= k0 + m <= hi {
            assert forall|j: int| between(j, m) implies b.dom().contains(
                #[trigger] step(d, j, horizontal),
            ) by {
                assert(step(d, j, horizontal) == step(c, k0 + j, horizontal));
            }
        } else if k0 + m > hi {
            let j = hi + 1 - k0;
            assert(between(j, m));
            assert(step(d, j, horizontal) == step(c, hi + 1, horizontal));
        } else {
            let j = lo - 1 - k0;
            assert(between(j, m));
            assert(step(d, j, horizontal) == step(c, lo - 1, horizontal));
        }
    }
}

/// Every cell of a run has the run's validity: it can be decided once per run from
/// the list of its pieces.
proof fn lemma_run_pieces(
    b: Map<(int, int), Piece>,
    c: (int, int),
    lo: int,
    hi: int,
    horizontal: bool,
    pcs: Seq<Piece>,
    k0: int,
)
    requires
        run_extent(b, c, lo, hi, horizontal),
        pcs.len() == hi - lo + 1,
        forall|j: int| 0 <= j < pcs.len() ==> #[trigger] pcs[j] == b[step(c, lo + j, horizontal)],
        lo <= k0 <= hi,
    ensures
        run_ok(b, step(c, k0, horizontal), horizontal) == pieces_ok(pcs),
{
    let d = step(c, k0, horizontal);
    let a = k0 - lo;
    let n = pcs.len();
    lemma_extent_linked(b, c, lo, hi, horizontal, k0);
    assert(pcs[a] == b[d]);
    assert forall|k: int| linked(b, d, k, horizontal) implies b[step(d, k, horizontal)] == pcs[k
        + a] by {
        assert(step(d, k, horizontal) == step(c, lo + (k + a), horizontal));
    }
    assert(linked(b, d, -a, horizontal));
    let col_run = forall|k: int| #[trigger]
        linked(b, d, k, horizontal) ==> b[step(d, k, horizontal)].1 == b[d].1;
    let col_seq = forall|i: int| 0 <= i < n ==> (#[trigger] pcs[i]).1 == pcs[0].1;
    let shp_run = forall|k: int| #[trigger]
        linked(b, d, k, horizontal) ==> b[step(d, k, horizontal)].0 == b[d].0;
    let shp_seq = forall|i: int| 0 <= i < n ==> (#[trigger] pcs[i]).0 == pcs[0].0;
    let dis_run = forall|k1: int, k2: int|
        #[trigger] linked(b, d, k1, horizontal) && #[trigger] linked(b, d, k2, horizontal) && k1
            != k2 ==> b[step(d, k1, horizontal)] != b[step(d, k2, horizontal)];
    let dis_seq = forall|i: int, j: int| 0 <= i < n && 0 <= j < n && i != j ==> pcs[i] != pcs[j];
    assert(col_run <==> col_seq) by {
        if col_run {
            assert forall|i: int| 0 <= i < n implies (#[trigger] pcs[i]).1 == pcs[0].1 by {
                assert(linked(b, d, i - a, horizontal));
            }
        }
        if col_seq {
            assert forall|k: int| #[trigger]
                linked(b, d, k, horizontal) implies b[step(d, k, horizontal)].1 == b[d].1 by {
                assert(pcs[k + a].1 == pcs[0].1);
            }
        }
    }
    assert(shp_run <==> shp_seq) by {
        if shp_run {
            assert forall|i: int| 0 <= i < n implies (#[trigger] pcs[i]).0 == pcs[0].0 by {
                assert(linked(b, d, i - a, horizontal));
            }
        }
        if shp_seq {
            assert forall|k: int| #[trigger]
                linked(b, d, k, horizontal) implies b[step(d, k, horizontal)].0 == b[d].0 by {
                assert(pcs[k + a].0 == pcs[0].0);
            }
        }
    }
    assert(dis_run <==> dis_seq) by {
        if dis_run {
            assert forall|i: int, j: int| 0 <= i < n && 0 <= j < n && i != j implies pcs[i]
                != pcs[j] by {
                assert(linked(b, d, i - a, horizontal));
                assert(linked(b, d, j - a, horizontal));
            }
        }
        if dis_seq {
            assert forall|k1: int, k2: int|
                #[trigger] linked(b, d, k1, horizontal) && #[trigger] linked(b, d, k2, horizontal)
                    && k1 != k2 implies b[step(d, k1, horizontal)] != b[step(d, k2, horizontal)] by {
                assert(pcs[k1 + a] != pcs[k2 + a]);
            }
        }
    }
}

/// The cell `k` steps away from `(x, y)`, when both its coordinates fit in `i32`.
fn cell_at(x: i32, y: i32, k: i64, horizontal: bool) -> (r: Option<(i32, i32)>)
    requires
        -0x1_0000_0000 <= k <= 0x1_0000_0000,
    ensures
        ({
            let s = step((x as int, y as int), k as int, horizontal);
            match r {
                Some(c) => (c.0 as int, c.1 as int) == s,
                None => !(i32::MIN <= s.0 <= i32::MAX && i32::MIN <= s.1 <= i32::MAX),
            }
        }),
{
    if horizontal {
        let nx = x as i64 + k;
        if nx < i32::MIN as i64 || nx > i32::MAX as i64 {
            None
        } else {
            Some((nx as i32, y))
        }
    } else {
        let ny = y as i64 + k;
        if ny < i32::MIN as i64 || ny > i32::MAX as i64 {
            None
        } else {
            Some((x, ny as i32))
        }
    }
}

/// Scans the maximal run through the occupied cell `(x, y)`. Returns the positions of
/// its entries on the board and whether the run is valid.
pub(crate) fn scan_run(board: &Board, x: i32, y: i32, horizontal: bool) -> (r: (Vec<usize>, bool))
    requires
        board.wf(),
        board@.dom().contains((x as int, y as int)),
    ensures
        r.1 == run_ok(board@, (x as int, y as int), horizontal),
        forall|j: int|
            0 <= j < r.0.len() ==> #[trigger] r.0[j] < board.size() && r.1 == run_ok(
                board@,
                cell_of(board.entries()[r.0[j] as int]),
                horizontal,
            ),
{
    let ghost b = board@;
    let ghost c = (x as int, y as int);
    proof {
        board.lemma_view();
        assert(step(c, 0, horizontal) == c);
    }
    let mut hi: i64 = 0;
    loop
        invariant
            board.wf(),
            b == board@,
            c == (x as int, y as int),
            0 <= hi <= 0x1_0000_0000,
            linked(b, c, hi as int, horizontal),
        ensures
            0 <= hi <= 0x1_0000_0000,
            linked(b, c, hi as int, horizontal),
            !b.dom().contains(step(c, hi + 1, horizontal)),
        decreases 0x1_0000_0000 - hi,
    {
        proof {
            board.lemma_view();
            assert(between(hi as int, hi as int));
            assert(b.dom().contains(step(c, hi as int, horizontal)));
        }
        match cell_at(x, y, hi + 1, horizontal) {
            Some(n) => {
                if board.contains(n.0, n.1) {
                    proof {
                        assert forall|j: int| between(j, hi + 1) implies b.dom().contains(
                            #[trigger] step(c, j, horizontal),
                        ) by {
                            if j <= hi {
                                assert(between(j, hi as int));
                            }
                        }
                    }
                    hi = hi + 1;
                } else {
                    break ;
                }
            },
            None => {
                break ;
            },
        }
    }
    let mut lo: i64 = 0;
    loop
        invariant
            board.wf(),
            b == board@,
            c == (x as int, y as int),
            -0x1_0000_0000 <= lo <= 0,
            linked(b, c, lo as int, horizontal),
        ensures
            -0x1_0000_0000 <= lo <= 0,
            linked(b, c, lo as int, horizontal),
            !b.dom().contains(step(c, lo - 1, horizontal)),
        decreases 0x1_0000_0000 + lo,
    {
        proof {
            board.lemma_view();
            assert(between(lo as int, lo as int));
            assert(b.dom().contains(step(c, lo as int, horizontal)));
        }
        match cell_at(x, y, lo - 1, horizontal) {
            Some(n) => {
                if board.contains(n.0, n.1) {
                    proof {
                        assert forall|j: int| between(j, lo - 1) implies b.dom().contains(
                            #[trigger] step(c, j, horizontal),
                        ) by {
                            if j >= lo {
                                assert(between(j, lo as int));
                            }
                        }
                    }
                    lo = lo - 1;
                } else {
                    break ;
                }
            },
            None => {
                break ;
            },
        }
    }
    proof {
        assert forall|j: int| lo <= j <= hi implies b.dom().contains(
            #[trigger] step(c, j, horizontal),
        ) by {
            if j >= 0 {
                assert(between(j, hi as int));
            } else {
                assert(between(j, lo as int));
            }
        }
        assert(run_extent(b, c, lo as int, hi as int, horizontal));
    }
    let mut idxs: Vec<usize> = Vec::new();
    let mut pcs: Vec<Piece> = Vec::new();
    let mut k: i64 = lo;
    while k <= hi
        invariant
            board.wf(),
            b == board@,
            c == (x as int, y as int),
            run_extent(b, c, lo as int, hi as int, horizontal),
            -0x1_0000_0000 <= lo <= 0,
            0 <= hi <= 0x1_0000_0000,
            lo <= k <= hi + 1,
            idxs@.len() == k - lo,
            pcs@.len() == k - lo,
            forall|j: int|
                0 <= j < idxs@.len() ==> #[trigger] idxs@[j] < board.size() && cell_of(
                    board.entries()[idxs@[j] as int],
                ) == step(c, lo + j, horizontal),
            forall|j: int|
                0 <= j < pcs@.len() ==> #[trigger] pcs@[j] == b[step(c, lo + j, horizontal)],
        decreases hi + 1 - k,
    {
        proof {
            board.lemma_view();
            assert(b.dom().contains(step(c, k as int, horizontal)));
        }
        let n = cell_at(x, y, k, horizontal).unwrap();
        let i = board.find(n.0, n.1).unwrap();
        let e = board.entry(i);
        let ghost old_idxs = idxs@;
        idxs.push(i);
        pcs.push(e.1);
        proof {
            assert forall|j: int| 0 <= j < idxs@.len() implies #[trigger] idxs@[j] < board.size() && cell_of(
                board.entries()[idxs@[j] as int],
            ) == step(c, lo + j, horizontal) by {
                if j < old_idxs.len() {
                    assert(idxs@[j] == old_idxs[j]);
                    assert(cell_of(board.entries()[old_idxs[j] as int]) == step(c, lo + j, horizontal));
                }
            }
        }
        k = k + 1;
    }
    let ok = pieces_form_run(&pcs);
    proof {
        assert forall|j: int| 0 <= j < idxs@.len() implies #[trigger] idxs@[j] < board.size() && ok
            == run_ok(b, cell_of(board.entries()[idxs@[j] as int]), horizontal) by {
            assert(cell_of(board.entries()[idxs@[j] as int]) == step(c, lo + j, horizontal));
            lemma_run_pieces(b, c, lo as int, hi as int, horizontal, pcs@, lo + j);
        }
        lemma_run_pieces(b, c, lo as int, hi as int, horizontal, pcs@, 0);
    }
    (idxs, ok)
}

} // verus!
