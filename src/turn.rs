use vstd::prelude::*;

verus! {

/// The seat `k` places after `active` around a table of `n` seats (`0 <= k <= n`).
pub open spec fn seat_after(active: int, k: int, n: int) -> int {
    if active + k < n {
        active + k
    } else {
        active + k - n
    }
}

/// Some player is connected.
pub open spec fn any_connected(connected: Seq<bool>) -> bool {
    exists|i: int| 0 <= i < connected.len() && #[trigger] connected[i]
}

/// `r` is the first connected seat after `active`, going round the table; after a
/// full round that is `active` itself.
pub open spec fn first_connected_after(connected: Seq<bool>, active: int, r: int) -> bool {
    exists|k: int|
        1 <= k <= connected.len() && r == seat_after(active, k, connected.len() as int)
            && connected[r] && forall|j: int|
            1 <= j < k ==> !(#[trigger] connected[seat_after(active, j, connected.len() as int)])
}

/// The next active player: steps forward from `active`, wrapping round, until it
/// reaches a connected player.
pub fn next_active(connected: &Vec<bool>, active: usize) -> (r: usize)
    requires
        active < connected@.len(),
        any_connected(connected@),
    ensures
        r < connected@.len(),
        connected@[r as int],
        first_connected_after(connected@, active as int, r as int),
{
    let n = connected.len();
    let ghost i = choose|i: int| 0 <= i < connected@.len() && #[trigger] connected@[i];
    let ghost ki = if i > active {
        i - active
    } else {
        i - active + n
    };
    let mut k: usize = 1;
    let mut cur: usize = if active + 1 < n {
        active + 1
    } else {
        0
    };
    while !connected[cur]
        invariant
            n == connected@.len(),
            active < n,
            1 <= k <= n,
            0 <= i < n,
            connected@[i],
            1 <= ki <= n,
            i == seat_after(active as int, ki, n as int),
            cur == seat_after(active as int, k as int, n as int),
            forall|j: int|
                1 <= j < k ==> !(#[trigger] connected@[seat_after(active as int, j, n as int)]),
        decreases n - k,
    {
        assert(k < ki) by {
            if k >= ki {
                if k == ki {
                } else {
                    assert(!connected@[seat_after(active as int, ki, n as int)]);
                }
            }
        }
        k += 1;
        cur = if cur + 1 < n {
            cur + 1
        } else {
            0
        };
    }
    cur
}

/// With exactly one player connected, advancing the turn always lands on that
/// player, from whichever seat it starts: the turn comes back to them.
pub proof fn lemma_single_connected_cycles(connected: Seq<bool>, c: int, active: int, r: int)
    requires
        0 <= c < connected.len(),
        0 <= active < connected.len(),
        connected[c],
        forall|i: int| 0 <= i < connected.len() && i != c ==> !(#[trigger] connected[i]),
        first_connected_after(connected, active, r),
    ensures
        r == c,
{
    let k = choose|k: int|
        1 <= k <= connected.len() && r == seat_after(active, k, connected.len() as int)
            && connected[r] && forall|j: int|
            1 <= j < k ==> !(#[trigger] connected[seat_after(active, j, connected.len() as int)]);
    assert(0 <= r < connected.len());
    if r != c {
        assert(!connected[r]);
    }
}

} // verus!
