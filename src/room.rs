use vstd::prelude::*;
use vstd::multiset::Multiset;
use crate::board::{Entry, Placement, entry_of, entry_pieces, fits, placed};
use crate::game::{Game, dealt_count};
use crate::hand::Hand;
use crate::message::{Audience, ClientMessage, Delivery, ServerMessage};
use crate::piece::{FULL_SET, Piece, full_set};
use crate::rules::{board_valid, linear};
use crate::turn::{any_connected, first_connected_after, next_active};

verus! {

broadcast use vstd::seq_lib::group_to_multiset_ensures, vstd::multiset::group_multiset_axioms,
    vstd::multiset::lemma_multiset_empty_len;

/// Size of a freshly dealt hand.
pub const HAND_SIZE: usize = 6;

/// Bonus for the player who ends the game.
pub const FINISH_BONUS: u32 = 6;

/// One seat of a room. A player stays in the roster after leaving; their hand
/// then goes back to the bag.
pub struct Player {
    pub name: String,
    pub score: u32,
    pub hand: Hand,
    pub connected: bool,
}

/// Why a player could not join a room.
#[derive(Copy, Clone, Debug, PartialEq, Eq, Structural)]
pub enum JoinError {
    /// The bag is empty: no hand can be dealt.
    NoPiecesLeft,
    /// The connection already has a seat in this room.
    AlreadySeated,
}

/// Total number of pieces held by the players.
pub open spec fn hand_total(players: Seq<Player>) -> int
    decreases players.len(),
{
    if players.len() == 0 {
        0
    } else {
        hand_total(players.drop_last()) + players.last().hand@.len()
    }
}

pub proof fn lemma_hand_total_push(players: Seq<Player>, p: Player)
    ensures
        hand_total(players.push(p)) == hand_total(players) + p.hand@.len(),
{
    assert(players.push(p).drop_last() == players);
}

pub proof fn lemma_hand_total_update(players: Seq<Player>, i: int, p: Player)
    requires
        0 <= i < players.len(),
    ensures
        hand_total(players.update(i, p)) == hand_total(players) - players[i].hand@.len()
            + p.hand@.len(),
    decreases players.len(),
{
    if i < players.len() - 1 {
        assert(players.update(i, p).drop_last() == players.drop_last().update(i, p));
        lemma_hand_total_update(players.drop_last(), i, p);
    } else {
        assert(players.update(i, p).drop_last() == players.drop_last());
    }
}

pub proof fn lemma_hand_total_nonneg(players: Seq<Player>)
    ensures
        0 <= hand_total(players),
    decreases players.len(),
{
    if players.len() > 0 {
        lemma_hand_total_nonneg(players.drop_last());
    }
}

pub proof fn lemma_hand_total_bound(players: Seq<Player>, i: int)
    requires
        0 <= i < players.len(),
    ensures
        players[i].hand@.len() <= hand_total(players),
    decreases players.len(),
{
    lemma_hand_total_nonneg(players.drop_last());
    if i < players.len() - 1 {
        lemma_hand_total_bound(players.drop_last(), i);
    }
}

/// All pieces held by the players, as one multiset.
pub open spec fn hands_of(players: Seq<Player>) -> Multiset<Piece>
    decreases players.len(),
{
    if players.len() == 0 {
        Multiset::empty()
    } else {
        hands_of(players.drop_last()).add(players.last().hand@)
    }
}

pub proof fn lemma_hands_of_push(players: Seq<Player>, p: Player)
    ensures
        hands_of(players.push(p)) == hands_of(players).add(p.hand@),
{
    assert(players.push(p).drop_last() == players);
}

pub proof fn lemma_hands_of_update(players: Seq<Player>, i: int, p: Player)
    requires
        0 <= i < players.len(),
    ensures
        hands_of(players.update(i, p)).add(players[i].hand@) =~= hands_of(players).add(p.hand@),
    decreases players.len(),
{
    let u = players.update(i, p);
    let d = players.drop_last();
    assert(hands_of(u) == hands_of(u.drop_last()).add(u.last().hand@));
    assert(hands_of(players) == hands_of(d).add(players.last().hand@));
    if i < players.len() - 1 {
        assert(u.drop_last() == d.update(i, p));
        lemma_hands_of_update(d, i, p);
        assert(u.last() == players.last());
        assert(d[i] == players[i]);
        assert forall|x: Piece| #[trigger] hands_of(u).add(players[i].hand@).count(x) == hands_of(players).add(
            p.hand@,
        ).count(x) by {
            assert(hands_of(d.update(i, p)).add(d[i].hand@).count(x) == hands_of(d).add(p.hand@).count(x));
        }
    } else {
        assert(u.drop_last() == d);
        assert(u.last() == p);
    }
}

/// When only seat `a` changed, the pieces are kept if the bag, that seat's hand
/// and the board hold the same pieces together as before.
proof fn lemma_seat_change_kept(pre: Room, post: Room, a: int)
    requires
        0 <= a < pre.players@.len(),
        post.players@ == pre.players@.update(a, post.players@[a]),
        post.game.bag@.to_multiset().add(post.players@[a].hand@).add(post.game.board.pieces())
            =~= pre.game.bag@.to_multiset().add(pre.players@[a].hand@).add(pre.game.board.pieces()),
    ensures
        post.all_pieces() == pre.all_pieces(),
{
    let q = post.players@[a];
    lemma_hands_of_update(pre.players@, a, q);
    let g = pre.players@[a].hand@;
    assert forall|x: Piece| #[trigger] post.all_pieces().count(x) == pre.all_pieces().count(x) by {
        assert(hands_of(post.players@).add(g).count(x) == hands_of(pre.players@).add(q.hand@).count(x));
        assert(post.game.bag@.to_multiset().add(q.hand@).add(post.game.board.pieces()).count(x)
            == pre.game.bag@.to_multiset().add(g).add(pre.game.board.pieces()).count(x));
    }
    assert(post.all_pieces() =~= pre.all_pieces());
}

/// The connection flags of the roster, seat by seat.
pub open spec fn connected_flags(players: Seq<Player>) -> Seq<bool> {
    Seq::new(players.len(), |i: int| players[i].connected)
}

/// The roster as sent to clients: name, score and connection flag of each seat.
pub open spec fn roster(players: Seq<Player>) -> Seq<(String, u32, bool)> {
    Seq::new(players.len(), |i: int| (players[i].name, players[i].score, players[i].connected))
}

/// Seat `w` has the highest score, and every seat before it scores less.
pub open spec fn is_winner(players: Seq<Player>, w: int) -> bool {
    &&& 0 <= w < players.len()
    &&& forall|i: int| 0 <= i < players.len() ==> (#[trigger] players[i]).score <= players[w].score
    &&& forall|i: int| 0 <= i < w ==> (#[trigger] players[i]).score < players[w].score
}

/// The connection table maps distinct connections to distinct seats, and a seat
/// has a connection exactly when its player is connected.
pub open spec fn connections_wf(conns: Seq<(u64, usize)>, players: Seq<Player>) -> bool {
    &&& forall|k: int| 0 <= k < conns.len() ==> (#[trigger] conns[k]).1 < players.len()
    &&& forall|k1: int, k2: int|
        0 <= k1 < conns.len() && 0 <= k2 < conns.len() && k1 != k2 ==> (#[trigger] conns[k1]).0
            != (#[trigger] conns[k2]).0 && conns[k1].1 != conns[k2].1
    &&& forall|i: int|
        0 <= i < players.len() ==> ((#[trigger] players[i]).connected <==> exists|k: int|
            0 <= k < conns.len() && (#[trigger] conns[k]).1 == i)
}

/// Whether connection `conn` has a seat.
pub open spec fn is_seated(conns: Seq<(u64, usize)>, conn: u64) -> bool {
    exists|k: int| 0 <= k < conns.len() && (#[trigger] conns[k]).0 == conn
}

/// Position of connection `conn` in the table (meaningful when it is seated).
pub open spec fn conn_index(conns: Seq<(u64, usize)>, conn: u64) -> int {
    choose|k: int| 0 <= k < conns.len() && (#[trigger] conns[k]).0 == conn
}

/// Seat of connection `conn`, if it has one.
pub open spec fn seat_of(conns: Seq<(u64, usize)>, conn: u64) -> Option<usize> {
    if is_seated(conns, conn) {
        Some(conns[conn_index(conns, conn)].1)
    } else {
        None
    }
}

/// The state of one room: its roster, its game and whose turn it is.
pub struct Room {
    pub name: String,
    pub started: bool,
    pub ended: bool,
    pub connections: Vec<(u64, usize)>,
    pub players: Vec<Player>,
    pub active_player: usize,
    pub game: Game,
}

impl Room {
    /// The bag, the hands and the board together hold as many pieces as a
    /// complete set.
    pub open spec fn pieces_conserved(&self) -> bool {
        self.game.bag@.len() + hand_total(self.players@) + self.game.board.size() == FULL_SET
    }

    /// The pieces of the bag, the hands and the board together.
    pub open spec fn all_pieces(&self) -> Multiset<Piece> {
        self.game.bag@.to_multiset().add(hands_of(self.players@)).add(self.game.board.pieces())
    }

    /// Every piece is in exactly one place: the bag, the hands and the board
    /// together hold one complete set, piece for piece.
    pub open spec fn pieces_kept(&self) -> bool {
        self.all_pieces() == full_set().to_multiset()
    }

    pub open spec fn wf(&self) -> bool {
        &&& self.game.wf()
        &&& self.pieces_kept()
        &&& self.players@.len() > 0 ==> self.active_player < self.players@.len()
        &&& self.players@.len() == 0 ==> self.active_player == 0
        &&& connections_wf(self.connections@, self.players@)
        &&& self.pieces_conserved()
        &&& forall|i: int|
            0 <= i < self.players@.len() ==> (#[trigger] self.players@[i]).score
                <= self.game.board.size() + if self.ended {
                FINISH_BONUS as int
            } else {
                0
            }
    }

    /// A room with no players and a new game.
    pub fn new(name: String) -> (r: Room)
        ensures
            r.wf(),
            r.name == name,
            !r.started,
            !r.ended,
            r.players@.len() == 0,
            r.connections@.len() == 0,
            r.active_player == 0,
            r.game.board.size() == 0,
            r.game.bag@.len() == FULL_SET,
    {
        let r = Room {
            name,
            started: false,
            ended: false,
            connections: Vec::new(),
            players: Vec::new(),
            active_player: 0,
            game: Game::new(),
        };
        assert(hand_total(r.players@) == 0);
        assert(entry_pieces(r.game.board.entries()).len() == 0);
        assert(r.all_pieces() =~= full_set().to_multiset());
        r
    }

    /// The room goes on while some connection is open.
    pub fn running(&self) -> (r: bool)
        ensures
            r == (self.connections@.len() > 0),
    {
        self.connections.len() > 0
    }

    /// Position of connection `conn` in the connection table, if it is there.
    fn position_of(&self, conn: u64) -> (r: Option<usize>)
        requires
            connections_wf(self.connections@, self.players@),
        ensures
            match r {
                Some(k) => is_seated(self.connections@, conn) && k == conn_index(self.connections@, conn),
                None => !is_seated(self.connections@, conn),
            },
    {
        let mut k: usize = 0;
        while k < self.connections.len()
            invariant
                connections_wf(self.connections@, self.players@),
                k <= self.connections@.len(),
                forall|j: int| 0 <= j < k ==> (#[trigger] self.connections@[j]).0 != conn,
            decreases self.connections@.len() - k,
        {
            if self.connections[k].0 == conn {
                proof {
                    let conns = self.connections@;
                    assert(is_seated(conns, conn));
                    let c = conn_index(conns, conn);
                    assert(c == k) by {
                        if c != k {
                            assert(conns[c].0 != conns[k as int].0);
                        }
                    }
                }
                return Some(k);
            }
            k += 1;
        }
        None
    }

    /// Seat of connection `conn`, if it has one.
    pub fn seat(&self, conn: u64) -> (r: Option<usize>)
        requires
            connections_wf(self.connections@, self.players@),
        ensures
            r == seat_of(self.connections@, conn),
    {
        match self.position_of(conn) {
            Some(k) => Some(self.connections[k].1),
            None => None,
        }
    }

    /// The connection flags of the roster.
    fn flags(&self) -> (r: Vec<bool>)
        ensures
            r@ == connected_flags(self.players@),
    {
        let mut r: Vec<bool> = Vec::new();
        let mut i: usize = 0;
        while i < self.players.len()
            invariant
                i <= self.players@.len(),
                r@ == connected_flags(self.players@).take(i as int),
            decreases self.players@.len() - i,
        {
            r.push(self.players[i].connected);
            i += 1;
            assert(r@ == connected_flags(self.players@).take(i as int));
        }
        assert(r@ == connected_flags(self.players@));
        r
    }

    /// Gives seat `i` a new hand, score and connection flag; returns its old hand.
    fn replace_seat(&mut self, i: usize, hand: Hand, score: u32, connected: bool) -> (r: Hand)
        requires
            i < old(self).players@.len(),
        ensures
            r == old(self).players@[i as int].hand,
            final(self).players@ == old(self).players@.update(
                i as int,
                Player { name: old(self).players@[i as int].name, score, hand, connected },
            ),
            final(self).name == old(self).name,
            final(self).started == old(self).started,
            final(self).ended == old(self).ended,
            final(self).connections == old(self).connections,
            final(self).active_player == old(self).active_player,
            final(self).game == old(self).game,
    {
        let p = self.players.remove(i);
        let Player { name, score: _, hand: old_hand, connected: _ } = p;
        self.players.insert(i, Player { name, score, hand, connected });
        proof {
            assert(self.players@ =~= old(self).players@.update(
                i as int,
                Player { name: old(self).players@[i as int].name, score, hand, connected },
            ));
        }
        old_hand
    }

    /// Hands the turn to the next connected player and announces it, when anyone
    /// is connected.
    fn next_player(&mut self, out: &mut Vec<Delivery>)
        requires
            old(self).players@.len() > 0,
            old(self).active_player < old(self).players@.len(),
            connections_wf(old(self).connections@, old(self).players@),
        ensures
            final(self).players == old(self).players,
            final(self).connections == old(self).connections,
            final(self).game == old(self).game,
            final(self).name == old(self).name,
            final(self).started == old(self).started,
            final(self).ended == old(self).ended,
            any_connected(connected_flags(old(self).players@)) == (old(self).connections@.len() > 0),
            if any_connected(connected_flags(old(self).players@)) {
                &&& final(self).active_player < old(self).players@.len()
                &&& first_connected_after(
                    connected_flags(old(self).players@),
                    old(self).active_player as int,
                    final(self).active_player as int,
                )
                &&& final(out)@ == old(out)@.push(
                    Delivery {
                        to: Audience::Everyone,
                        msg: ServerMessage::PlayerTurn(final(self).active_player),
                    },
                )
            } else {
                &&& final(self).active_player == old(self).active_player
                &&& final(out)@ == old(out)@
            },
    {
        let ghost flags = connected_flags(self.players@);
        proof {
            if self.connections@.len() > 0 {
                let i = self.connections@[0].1 as int;
                assert(self.players@[i].connected);
                assert(flags[i]);
            }
            if any_connected(flags) {
                let i = choose|i: int| 0 <= i < flags.len() && #[trigger] flags[i];
                assert(self.players@[i].connected);
            }
        }
        if self.connections.len() > 0 {
            let f = self.flags();
            self.active_player = next_active(&f, self.active_player);
            out.push(
                Delivery { to: Audience::Everyone, msg: ServerMessage::PlayerTurn(self.active_player) },
            );
        }
    }

    /// The connected players that audience `to` names, in seat order.
    pub fn recipients(&self, to: Audience) -> (r: Vec<usize>)
        ensures
            forall|j: int|
                0 <= j < r@.len() ==> #[trigger] r@[j] < self.players@.len() && self.players@[r@[j] as int].connected
                    && in_audience(to, r@[j] as int),
            forall|i: int|
                0 <= i < self.players@.len() && #[trigger] self.players@[i].connected && in_audience(to, i)
                    ==> r@.contains(i as usize),
            forall|j1: int, j2: int| 0 <= j1 < j2 < r@.len() ==> r@[j1] < r@[j2],
    {
        let mut r: Vec<usize> = Vec::new();
        let mut i: usize = 0;
        while i < self.players.len()
            invariant
                i <= self.players@.len(),
                forall|j: int|
                    0 <= j < r@.len() ==> #[trigger] r@[j] < i && self.players@[r@[j] as int].connected
                        && in_audience(to, r@[j] as int),
                forall|m: int|
                    0 <= m < i && #[trigger] self.players@[m].connected && in_audience(to, m)
                        ==> r@.contains(m as usize),
                forall|j1: int, j2: int| 0 <= j1 < j2 < r@.len() ==> r@[j1] < r@[j2],
            decreases self.players@.len() - i,
        {
            let wanted = match to {
                Audience::Everyone => true,
                Audience::AllBut(x) => x != i,
                Audience::Only(x) => x == i,
            };
            if self.players[i].connected && wanted {
                let ghost before = r@;
                r.push(i);
                proof {
                    assert(r@[r@.len() - 1] == i);
                    assert forall|m: int|
                        0 <= m < i && #[trigger] self.players@[m].connected && in_audience(to, m)
                            implies r@.contains(m as usize) by {
                        let j = choose|j: int| 0 <= j < before.len() && before[j] == m as usize;
                        assert(r@[j] == m as usize);
                    }
                }
            }
            proof {
                if self.players@[i as int].connected && in_audience(to, i as int) {
                    assert(r@[r@.len() - 1] == i);
                }
            }
            i += 1;
        }
        r
    }

    /// Unseats the player of a closed connection: their hand goes back to the bag,
    /// which is shuffled, and if it was their turn it passes on.
    fn on_client_disconnected(&mut self, conn: u64, out: &mut Vec<Delivery>)
        requires
            old(self).wf(),
        ensures
            final(self).wf(),
            left(*old(self), *final(self), conn, old(out)@, final(out)@),
    {
        let k = match self.position_of(conn) {
            Some(k) => k,
            None => {
                return ;
            },
        };
        let p = self.connections[k].1;
        let ghost pre = *self;
        self.connections.remove(k);
        let score = self.players[p].score;
        let hand = self.replace_seat(p, Hand::new(), score, false);
        let pieces = hand.to_vec();
        self.game.put_back(&pieces);
        proof {
            vstd::seq_lib::lemma_multiset_commutative(pre.game.bag@, pieces@);
        }
        self.game.shuffle();
        proof {
            let ps = self.players@;
            let conns = self.connections@;
            lemma_hand_total_update(pre.players@, p as int, ps[p as int]);
            assert(ps == pre.players@.update(p as int, ps[p as int]));
            assert(pieces@.to_multiset() == pre.players@[p as int].hand@);
            lemma_seat_change_kept(pre, *self, p as int);
            assert(connections_wf(conns, ps)) by {
                let c0 = pre.connections@;
                assert forall|j: int| 0 <= j < conns.len() implies (#[trigger] conns[j]) == if j < k {
                    c0[j]
                } else {
                    c0[j + 1]
                } by {}
                assert forall|i: int|
                    0 <= i < ps.len() implies ((#[trigger] ps[i]).connected <==> exists|m: int|
                        0 <= m < conns.len() && (#[trigger] conns[m]).1 == i) by {
                    if exists|m: int| 0 <= m < conns.len() && (#[trigger] conns[m]).1 == i {
                        let m = choose|m: int| 0 <= m < conns.len() && (#[trigger] conns[m]).1 == i;
                        let m0 = if m < k { m } else { m + 1 };
                        assert(c0[m0].1 == i);
                        assert(m0 != k);
                        assert(i != p);
                        assert(pre.players@[i].connected);
                    }
                    if ps[i].connected {
                        assert(i != p);
                        assert(pre.players@[i].connected);
                        let m0 = choose|m: int| 0 <= m < c0.len() && (#[trigger] c0[m]).1 == i;
                        assert(m0 != k);
                        let m = if m0 < k { m0 } else { m0 - 1 };
                        assert(conns[m].1 == i);
                    }
                }
            }
            assert forall|i: int| 0 <= i < ps.len() implies (#[trigger] ps[i]).score
                <= self.game.board.size() + if self.ended {
                FINISH_BONUS as int
            } else {
                0
            } by {
                assert(pre.players@[i].score == ps[i].score);
            }
        }
        out.push(Delivery { to: Audience::Everyone, msg: ServerMessage::PlayerDisconnected(p) });
        out.push(
            Delivery { to: Audience::Everyone, msg: ServerMessage::PiecesRemaining(self.game.bag.len()) },
        );
        if p == self.active_player {
            self.next_player(out);
        }
    }

    /// The seat with the highest score; the first such seat on a tie.
    fn winner(&self) -> (r: usize)
        requires
            self.players@.len() > 0,
        ensures
            is_winner(self.players@, r as int),
    {
        let mut best: usize = 0;
        let mut i: usize = 1;
        while i < self.players.len()
            invariant
                1 <= i <= self.players@.len(),
                best < i,
                forall|j: int| 0 <= j < i ==> (#[trigger] self.players@[j]).score <= self.players@[best as int].score,
                forall|j: int| 0 <= j < best ==> (#[trigger] self.players@[j]).score < self.players@[best as int].score,
            decreases self.players@.len() - i,
        {
            if self.players[i].score > self.players[best].score {
                best = i;
            }
            i += 1;
        }
        best
    }

    /// The active player's move: checks it against the rules and the player's
    /// hand, applies it and deals replacements, then ends the game or passes the
    /// turn. An illegal move changes nothing and is answered with a rejection.
    fn on_play(&mut self, ps: Vec<Placement>) -> (out: Vec<Delivery>)
        requires
            old(self).wf(),
            !old(self).ended,
            old(self).players@.len() > 0,
            old(self).players@[old(self).active_player as int].connected,
        ensures
            final(self).wf(),
            played(*old(self), *final(self), ps, out@),
    {
        let a = self.active_player;
        let ghost pre = *self;
        let rejected = vec![Delivery { to: Audience::Only(a), msg: ServerMessage::MoveRejected }];
        assert(rejected@ == seq![Delivery { to: Audience::Only(a), msg: ServerMessage::MoveRejected }]);
        if !self.game.board.fits_all(&ps) {
            assert(!legal_play(pre, ps@));
            return rejected;
        }
        let mut tentative = self.game.board.duplicate();
        tentative.place_all(&ps);
        let bad = Game::invalid(&tentative);
        if bad.len() > 0 {
            assert(!legal_play(pre, ps@));
            return rejected;
        }
        let cells = placement_cells(&ps);
        if !Game::is_linear(&cells) {
            return rejected;
        }
        let pieces = placement_pieces(&ps);
        let score = self.players[a].score;
        let mut hand = self.replace_seat(a, Hand::new(), score, true);
        let ghost h0 = hand@;
        if !hand.try_remove(&pieces) {
            self.replace_seat(a, hand, score, true);
            assert(self.players@ =~= pre.players@);
            assert(!legal_play(pre, ps@));
            return rejected;
        }
        proof {
            lemma_hand_total_bound(pre.players@, a as int);
            assert(pieces@.to_multiset().len() == ps@.len());
        }
        let placed_count = self.game.play(&ps).unwrap();
        let dealt = self.game.deal(ps.len());
        let dealt_pieces = dealt.to_vec();
        hand.add_all(&dealt_pieces);
        let over = hand.is_empty() && self.game.bag.len() == 0;
        let delta = if over {
            placed_count + FINISH_BONUS
        } else {
            placed_count
        };
        proof {
            assert(pre.game.board.size() <= FULL_SET);
            assert(score <= pre.game.board.size());
        }
        let total = score + delta;
        self.replace_seat(a, hand, total, true);
        proof {
            let post = *self;
            assert(post.players@ =~= pre.players@.update(a as int, post.players@[a as int]));
            lemma_hand_total_update(pre.players@, a as int, post.players@[a as int]);
            assert(post.all_pieces() == pre.all_pieces()) by {
                let len = pre.game.bag@.len() as int;
                let k = dealt_count(ps@.len() as int, len);
                let tk = pre.game.bag@.take(len - k);
                let sk = pre.game.bag@.skip(len - k);
                assert(tk + sk == pre.game.bag@);
                vstd::seq_lib::lemma_multiset_commutative(tk, sk);
                let e0 = pre.game.board.entries();
                let added = ps@.map_values(|p: Placement| entry_of(p));
                assert(entry_pieces(e0 + added) =~= entry_pieces(e0) + entry_pieces(added));
                assert(entry_pieces(added) =~= pieces_of(ps@));
                vstd::seq_lib::lemma_multiset_commutative(entry_pieces(e0), pieces_of(ps@));
                lemma_seat_change_kept(pre, post, a as int);
            }
            assert forall|i: int| 0 <= i < post.players@.len() implies (#[trigger] post.players@[i]).score
                <= post.game.board.size() + if over {
                FINISH_BONUS as int
            } else {
                0
            } by {
                if i != a {
                    assert(post.players@[i] == pre.players@[i]);
                }
            }
            assert forall|i: int|
                0 <= i < post.players@.len() implies ((#[trigger] post.players@[i]).connected <==> exists|k: int|
                    0 <= k < post.connections@.len() && (#[trigger] post.connections@[k]).1 == i) by {
                if i != a {
                    assert(post.players@[i] == pre.players@[i]);
                } else {
                    assert(pre.players@[i].connected);
                }
            }
            assert(connected_flags(post.players@) == connected_flags(pre.players@));
            assert(post.players@[a as int].hand@.len() == h0.len() - ps@.len() + dealt@.len());
            assert(post.pieces_conserved());
            assert(connections_wf(post.connections@, post.players@));
        }
        let mut out: Vec<Delivery> = Vec::new();
        out.push(Delivery { to: Audience::Everyone, msg: ServerMessage::PlayerScore { delta, total } });
        out.push(
            Delivery { to: Audience::Everyone, msg: ServerMessage::PiecesRemaining(self.game.bag.len()) },
        );
        out.push(Delivery { to: Audience::Only(a), msg: ServerMessage::MoveAccepted(dealt_pieces) });
        out.push(Delivery { to: Audience::AllBut(a), msg: ServerMessage::Played(ps) });
        if over {
            let w = self.winner();
            out.push(Delivery { to: Audience::Everyone, msg: ServerMessage::ItsOver(w) });
            self.ended = true;
        } else {
            self.next_player(&mut out);
        }
        assert(self.pieces_conserved());
        assert(connections_wf(self.connections@, self.players@));
        assert(self.active_player < self.players@.len());
        out
    }

    /// The active player's exchange of `pieces` for as many from the bag. Refused,
    /// changing nothing, when the player does not hold them or the bag is short.
    fn on_swap(&mut self, pieces: Vec<Piece>) -> (out: Vec<Delivery>)
        requires
            old(self).wf(),
            old(self).players@.len() > 0,
            old(self).players@[old(self).active_player as int].connected,
        ensures
            final(self).wf(),
            swapped(*old(self), *final(self), pieces, out@),
    {
        let a = self.active_player;
        let ghost pre = *self;
        let rejected = vec![Delivery { to: Audience::Only(a), msg: ServerMessage::MoveRejected }];
        assert(rejected@ == seq![Delivery { to: Audience::Only(a), msg: ServerMessage::MoveRejected }]);
        let count = pieces.len();
        if count > self.game.bag.len() {
            return rejected;
        }
        let score = self.players[a].score;
        let mut hand = self.replace_seat(a, Hand::new(), score, true);
        let ghost h0 = hand@;
        if !hand.try_remove(&pieces) {
            self.replace_seat(a, hand, score, true);
            assert(self.players@ =~= pre.players@);
            return rejected;
        }
        let drawn = self.game.exchange(pieces).unwrap();
        hand.add_all(&drawn);
        self.replace_seat(a, hand, score, true);
        proof {
            let post = *self;
            assert(post.players@ =~= pre.players@.update(a as int, post.players@[a as int]));
            lemma_hand_total_update(pre.players@, a as int, post.players@[a as int]);
            assert(post.all_pieces() == pre.all_pieces()) by {
                let d = pre.game.bag@.len() - count;
                let tk = pre.game.bag@.take(d);
                let sk = pre.game.bag@.skip(d);
                assert(tk + sk == pre.game.bag@);
                vstd::seq_lib::lemma_multiset_commutative(tk, sk);
                lemma_seat_change_kept(pre, post, a as int);
            }
            assert(post.players@[a as int].hand@.len() == h0.len());
            assert forall|i: int| 0 <= i < post.players@.len() implies (#[trigger] post.players@[i]).score
                <= post.game.board.size() + if post.ended {
                FINISH_BONUS as int
            } else {
                0
            } by {
                if i != a {
                    assert(post.players@[i] == pre.players@[i]);
                }
            }
            assert forall|i: int|
                0 <= i < post.players@.len() implies ((#[trigger] post.players@[i]).connected <==> exists|k: int|
                    0 <= k < post.connections@.len() && (#[trigger] post.connections@[k]).1 == i) by {
                if i != a {
                    assert(post.players@[i] == pre.players@[i]);
                }
            }
            assert(connected_flags(post.players@) == connected_flags(pre.players@));
            assert(post.pieces_conserved());
        }
        let mut out: Vec<Delivery> = Vec::new();
        out.push(Delivery { to: Audience::Only(a), msg: ServerMessage::MoveAccepted(drawn) });
        out.push(Delivery { to: Audience::Everyone, msg: ServerMessage::Swapped(count) });
        self.next_player(&mut out);
        out
    }

    /// Applies one message from connection `conn` and returns what the room sends
    /// in answer.
    pub fn on_message(&mut self, conn: u64, msg: ClientMessage) -> (out: Vec<Delivery>)
        requires
            old(self).wf(),
        ensures
            final(self).wf(),
            final(self).pieces_conserved(),
            final(self).pieces_kept(),
            handled(*old(self), *final(self), conn, msg, out@),
    {
        match msg {
            ClientMessage::Disconnected => {
                let mut out: Vec<Delivery> = Vec::new();
                self.on_client_disconnected(conn, &mut out);
                out
            },
            ClientMessage::Chat(message) => {
                let from = match self.seat(conn) {
                    Some(i) => self.players[i].name.clone(),
                    None => "unknown".to_owned(),
                };
                proof {
                    reveal_strlit("unknown");
                }
                let out = vec![Delivery { to: Audience::Everyone, msg: ServerMessage::Chat { from, message } }];
                assert(out@[0].msg == ServerMessage::Chat { from, message });
                out
            },
            ClientMessage::CreateRoom(_) | ClientMessage::JoinRoom(_, _) => Vec::new(),
            ClientMessage::Play(ps) => match self.seat(conn) {
                Some(i) => {
                    if self.ended {
                        let out = vec![Delivery { to: Audience::Only(i), msg: ServerMessage::MoveRejected }];
                        assert(out@ == seq![Delivery { to: Audience::Only(i), msg: ServerMessage::MoveRejected }]);
                        out
                    } else if i == self.active_player {
                        self.on_play(ps)
                    } else {
                        Vec::new()
                    }
                },
                None => Vec::new(),
            },
            ClientMessage::Swap(pieces) => match self.seat(conn) {
                Some(i) => {
                    if self.ended {
                        let out = vec![Delivery { to: Audience::Only(i), msg: ServerMessage::MoveRejected }];
                        assert(out@ == seq![Delivery { to: Audience::Only(i), msg: ServerMessage::MoveRejected }]);
                        out
                    } else if i == self.active_player {
                        self.on_swap(pieces)
                    } else {
                        Vec::new()
                    }
                },
                None => Vec::new(),
            },
        }
    }

    /// The roster as sent to clients.
    fn roster_vec(&self) -> (r: Vec<(String, u32, bool)>)
        ensures
            r@ == roster(self.players@),
    {
        let mut r: Vec<(String, u32, bool)> = Vec::new();
        let mut i: usize = 0;
        while i < self.players.len()
            invariant
                i <= self.players@.len(),
                r@ == roster(self.players@).take(i as int),
            decreases self.players@.len() - i,
        {
            let p = &self.players[i];
            r.push((p.name.clone(), p.score, p.connected));
            i += 1;
            assert(r@ == roster(self.players@).take(i as int));
        }
        assert(r@ == roster(self.players@));
        r
    }

    /// Seats a new player on connection `conn` with a freshly dealt hand, tells the
    /// others, and sends the newcomer the state of the room.
    pub fn add_player(&mut self, conn: u64, player_name: String) -> (r: Result<Vec<Delivery>, JoinError>)
        requires
            old(self).wf(),
        ensures
            final(self).wf(),
            final(self).pieces_conserved(),
            final(self).pieces_kept(),
            old(self).game.bag@.len() == 0 ==> r == Err::<Vec<Delivery>, JoinError>(JoinError::NoPiecesLeft)
                && *final(self) == *old(self),
            old(self).game.bag@.len() > 0 && is_seated(old(self).connections@, conn) ==> r == Err::<
                Vec<Delivery>,
                JoinError,
            >(JoinError::AlreadySeated) && *final(self) == *old(self),
            old(self).game.bag@.len() > 0 && !is_seated(old(self).connections@, conn) ==> r is Ok
                && joined(*old(self), *final(self), conn, player_name, r->Ok_0@),
    {
        if self.game.bag.len() == 0 {
            return Err(JoinError::NoPiecesLeft);
        }
        if self.seat(conn).is_some() {
            return Err(JoinError::AlreadySeated);
        }
        let n = self.players.len();
        let mut out: Vec<Delivery> = Vec::new();
        out.push(Delivery { to: Audience::AllBut(n), msg: ServerMessage::NewPlayer(player_name.clone()) });
        let hand = self.game.deal(HAND_SIZE);
        let pieces = hand.to_vec();
        self.connections.push((conn, n));
        self.players.push(Player { name: player_name, score: 0, hand, connected: true });
        self.started = true;
        proof {
            lemma_hand_total_push(old(self).players@, self.players@[n as int]);
            assert(self.players@ == old(self).players@.push(self.players@[n as int]));
            lemma_hands_of_push(old(self).players@, self.players@[n as int]);
            let len = old(self).game.bag@.len() as int;
            let k = dealt_count(HAND_SIZE as int, len);
            let tk = old(self).game.bag@.take(len - k);
            let sk = old(self).game.bag@.skip(len - k);
            assert(tk + sk == old(self).game.bag@);
            vstd::seq_lib::lemma_multiset_commutative(tk, sk);
            assert(self.all_pieces() =~= old(self).all_pieces());
            let conns = self.connections@;
            let ps = self.players@;
            assert forall|k1: int, k2: int|
                0 <= k1 < conns.len() && 0 <= k2 < conns.len() && k1 != k2 implies (#[trigger] conns[k1]).0
                    != (#[trigger] conns[k2]).0 && conns[k1].1 != conns[k2].1 by {
                if k1 == n as int || k2 == n as int {
                }
            }
            assert forall|i: int|
                0 <= i < ps.len() implies ((#[trigger] ps[i]).connected <==> exists|k: int|
                    0 <= k < conns.len() && (#[trigger] conns[k]).1 == i) by {
                if i < n {
                    assert(ps[i] == old(self).players@[i]);
                    if exists|k: int| 0 <= k < conns.len() && (#[trigger] conns[k]).1 == i {
                        let k = choose|k: int| 0 <= k < conns.len() && (#[trigger] conns[k]).1 == i;
                        assert(k < conns.len() - 1);
                        assert(old(self).connections@[k].1 == i);
                    }
                    if ps[i].connected {
                        let k = choose|k: int|
                            0 <= k < old(self).connections@.len() && (#[trigger] old(self).connections@[k]).1 == i;
                        assert(conns[k].1 == i);
                    }
                } else {
                    assert(conns[conns.len() - 1].1 == i);
                }
            }
            assert(self.players@.take(n as int) == old(self).players@);
            assert(self.game.wf());
            assert(self.pieces_conserved());
            assert forall|i: int| 0 <= i < ps.len() implies (#[trigger] ps[i]).score
                <= self.game.board.size() + if self.ended {
                FINISH_BONUS as int
            } else {
                0
            } by {
                if i < n {
                    assert(ps[i] == old(self).players@[i]);
                }
            }
            assert(connections_wf(conns, ps));
        }
        let players = self.roster_vec();
        let board = self.game.board.to_vec();
        out.push(
            Delivery {
                to: Audience::Only(n),
                msg: ServerMessage::JoinedRoom {
                    room_name: self.name.clone(),
                    players,
                    active_player: self.active_player,
                    board,
                    pieces,
                },
            },
        );
        out.push(
            Delivery { to: Audience::Everyone, msg: ServerMessage::PiecesRemaining(self.game.bag.len()) },
        );
        Ok(out)
    }
}

/// `post` and `out` are `pre` and `out0` after connection `conn` closed.
pub open spec fn left(pre: Room, post: Room, conn: u64, out0: Seq<Delivery>, out: Seq<Delivery>) -> bool {
    if !is_seated(pre.connections@, conn) {
        post == pre && out == out0
    } else {
        let k = conn_index(pre.connections@, conn);
        let p = pre.connections@[k].1 as int;
        let gone = pre.players@[p];
        let announced = out0.push(
            Delivery { to: Audience::Everyone, msg: ServerMessage::PlayerDisconnected(p as usize) },
        ).push(
            Delivery {
                to: Audience::Everyone,
                msg: ServerMessage::PiecesRemaining(post.game.bag@.len() as usize),
            },
        );
        &&& post.connections@ == pre.connections@.remove(k)
        &&& post.players@.len() == pre.players@.len()
        &&& forall|i: int| 0 <= i < pre.players@.len() && i != p ==> post.players@[i] == pre.players@[i]
        &&& post.players@[p].name == gone.name
        &&& post.players@[p].score == gone.score
        &&& !post.players@[p].connected
        &&& post.players@[p].hand@ == Multiset::<Piece>::empty()
        &&& post.game.board == pre.game.board
        &&& post.game.bag@.len() == pre.game.bag@.len() + gone.hand@.len()
        &&& post.game.bag@.to_multiset() == pre.game.bag@.to_multiset().add(gone.hand@)
        &&& post.name == pre.name
        &&& post.started == pre.started
        &&& post.ended == pre.ended
        &&& if p == pre.active_player && any_connected(connected_flags(post.players@)) {
            &&& first_connected_after(
                connected_flags(post.players@),
                pre.active_player as int,
                post.active_player as int,
            )
            &&& out == announced.push(
                Delivery {
                    to: Audience::Everyone,
                    msg: ServerMessage::PlayerTurn(post.active_player),
                },
            )
        } else {
            &&& post.active_player == pre.active_player
            &&& out == announced
        }
    }
}

/// `post` holds the same state as `pre`.
pub open spec fn unchanged(pre: Room, post: Room) -> bool {
    &&& post.name == pre.name
    &&& post.started == pre.started
    &&& post.ended == pre.ended
    &&& post.connections@ == pre.connections@
    &&& post.players@ == pre.players@
    &&& post.active_player == pre.active_player
    &&& post.game.board == pre.game.board
    &&& post.game.bag@ == pre.game.bag@
}

/// The pieces of a list of placements.
pub open spec fn pieces_of(ps: Seq<Placement>) -> Seq<Piece> {
    ps.map_values(|p: Placement| p.0)
}

/// The target cells of a list of placements.
pub open spec fn cells_of(ps: Seq<Placement>) -> Seq<(i32, i32)> {
    ps.map_values(|p: Placement| (p.1, p.2))
}

fn placement_pieces(ps: &Vec<Placement>) -> (r: Vec<Piece>)
    ensures
        r@ == pieces_of(ps@),
{
    let mut r: Vec<Piece> = Vec::new();
    let mut i: usize = 0;
    while i < ps.len()
        invariant
            i <= ps@.len(),
            r@ == pieces_of(ps@).take(i as int),
        decreases ps@.len() - i,
    {
        r.push(ps[i].0);
        i += 1;
        assert(r@ == pieces_of(ps@).take(i as int));
    }
    assert(r@ == pieces_of(ps@));
    r
}

fn placement_cells(ps: &Vec<Placement>) -> (r: Vec<(i32, i32)>)
    ensures
        r@ == cells_of(ps@),
{
    let mut r: Vec<(i32, i32)> = Vec::new();
    let mut i: usize = 0;
    while i < ps.len()
        invariant
            i <= ps@.len(),
            r@ == cells_of(ps@).take(i as int),
        decreases ps@.len() - i,
    {
        r.push((ps[i].1, ps[i].2));
        i += 1;
        assert(r@ == cells_of(ps@).take(i as int));
    }
    assert(r@ == cells_of(ps@));
    r
}

/// A move is legal when its cells are free and distinct, the board stays valid,
/// its cells lie on one line, and the active player holds its pieces.
pub open spec fn legal_play(pre: Room, ps: Seq<Placement>) -> bool {
    &&& fits(pre.game.board@, ps)
    &&& board_valid(placed(pre.game.board@, ps))
    &&& linear(cells_of(ps))
    &&& pieces_of(ps).to_multiset().subset_of(pre.players@[pre.active_player as int].hand@)
}

/// `post` and `out` are `pre` and what it sends after the active player's move `ps`.
pub open spec fn played(pre: Room, post: Room, ps: Vec<Placement>, out: Seq<Delivery>) -> bool {
    let a = pre.active_player as int;
    if !legal_play(pre, ps@) {
        unchanged(pre, post) && out == seq![Delivery { to: Audience::Only(a as usize), msg: ServerMessage::MoveRejected }]
    } else {
        let len = pre.game.bag@.len() as int;
        let k = dealt_count(ps@.len() as int, len);
        let dealt = pre.game.bag@.skip(len - k).to_multiset();
        let hand = pre.players@[a].hand@.sub(pieces_of(ps@).to_multiset()).add(dealt);
        let over = hand.len() == 0 && len == k;
        let delta = ps@.len() + if over { FINISH_BONUS as int } else { 0 };
        let total = pre.players@[a].score + delta;
        &&& post.game.board@ == placed(pre.game.board@, ps@)
        &&& post.game.board.size() == pre.game.board.size() + ps@.len()
        &&& post.game.bag@ == pre.game.bag@.take(len - k)
        &&& post.players@.len() == pre.players@.len()
        &&& forall|i: int| 0 <= i < pre.players@.len() && i != a ==> post.players@[i] == pre.players@[i]
        &&& post.players@[a].name == pre.players@[a].name
        &&& post.players@[a].connected
        &&& post.players@[a].score == total
        &&& post.players@[a].hand@ == hand
        &&& post.connections == pre.connections
        &&& post.name == pre.name
        &&& post.started == pre.started
        &&& post.ended == over
        &&& out.len() == 5
        &&& out[0] == Delivery {
            to: Audience::Everyone,
            msg: ServerMessage::PlayerScore { delta: delta as u32, total: total as u32 },
        }
        &&& out[1] == Delivery {
            to: Audience::Everyone,
            msg: ServerMessage::PiecesRemaining(post.game.bag@.len() as usize),
        }
        &&& out[2].to == Audience::Only(a as usize)
        &&& match out[2].msg {
            ServerMessage::MoveAccepted(d) => d@.to_multiset() == dealt,
            _ => false,
        }
        &&& out[3] == Delivery { to: Audience::AllBut(a as usize), msg: ServerMessage::Played(ps) }
        &&& if over {
            &&& post.active_player == pre.active_player
            &&& exists|w: int| is_winner(post.players@, w) && out[4] == Delivery {
                to: Audience::Everyone,
                msg: ServerMessage::ItsOver(w as usize),
            }
        } else {
            &&& first_connected_after(connected_flags(post.players@), a, post.active_player as int)
            &&& out[4] == Delivery {
                to: Audience::Everyone,
                msg: ServerMessage::PlayerTurn(post.active_player),
            }
        }
    }
}

/// An exchange is allowed when the active player holds the pieces and the bag
/// has at least as many.
pub open spec fn legal_swap(pre: Room, pieces: Seq<Piece>) -> bool {
    &&& pieces.to_multiset().subset_of(pre.players@[pre.active_player as int].hand@)
    &&& pieces.len() <= pre.game.bag@.len()
}

/// `post` and `out` are `pre` and what it sends after the active player offered
/// `pieces` for exchange.
pub open spec fn swapped(pre: Room, post: Room, pieces: Vec<Piece>, out: Seq<Delivery>) -> bool {
    let a = pre.active_player as int;
    if !legal_swap(pre, pieces@) {
        unchanged(pre, post) && out == seq![Delivery { to: Audience::Only(a as usize), msg: ServerMessage::MoveRejected }]
    } else {
        let d = pre.game.bag@.len() - pieces@.len();
        let drawn = pre.game.bag@.skip(d).to_multiset();
        &&& post.game.board == pre.game.board
        &&& post.game.bag@.len() == pre.game.bag@.len()
        &&& post.game.bag@.to_multiset() == pre.game.bag@.take(d).to_multiset().add(pieces@.to_multiset())
        &&& post.players@.len() == pre.players@.len()
        &&& forall|i: int| 0 <= i < pre.players@.len() && i != a ==> post.players@[i] == pre.players@[i]
        &&& post.players@[a].name == pre.players@[a].name
        &&& post.players@[a].connected
        &&& post.players@[a].score == pre.players@[a].score
        &&& post.players@[a].hand@ == pre.players@[a].hand@.sub(pieces@.to_multiset()).add(drawn)
        &&& post.connections == pre.connections
        &&& post.name == pre.name
        &&& post.started == pre.started
        &&& post.ended == pre.ended
        &&& first_connected_after(connected_flags(post.players@), a, post.active_player as int)
        &&& out.len() == 3
        &&& out[0].to == Audience::Only(a as usize)
        &&& match out[0].msg {
            ServerMessage::MoveAccepted(v) => v@.to_multiset() == drawn,
            _ => false,
        }
        &&& out[1] == Delivery { to: Audience::Everyone, msg: ServerMessage::Swapped(pieces@.len() as usize) }
        &&& out[2] == Delivery { to: Audience::Everyone, msg: ServerMessage::PlayerTurn(post.active_player) }
    }
}

/// The name a chat message from connection `conn` goes out under.
pub open spec fn sender_name(pre: Room, conn: u64) -> Seq<char> {
    match seat_of(pre.connections@, conn) {
        Some(i) => pre.players@[i as int].name@,
        None => "unknown"@,
    }
}

/// A move from a seated connection: after the game ended it is refused; out of
/// turn it is ignored.
pub open spec fn move_gate(pre: Room, post: Room, conn: u64, out: Seq<Delivery>) -> bool {
    match seat_of(pre.connections@, conn) {
        None => post == pre && out.len() == 0,
        Some(i) => if pre.ended {
            post == pre && out == seq![Delivery { to: Audience::Only(i), msg: ServerMessage::MoveRejected }]
        } else {
            i != pre.active_player && post == pre && out.len() == 0
        },
    }
}

/// `post` and `out` are `pre` and what it sends after message `msg` from `conn`.
pub open spec fn handled(pre: Room, post: Room, conn: u64, msg: ClientMessage, out: Seq<Delivery>) -> bool {
    match msg {
        ClientMessage::Disconnected => left(pre, post, conn, Seq::empty(), out),
        ClientMessage::Chat(text) => {
            &&& post == pre
            &&& out.len() == 1
            &&& out[0].to == Audience::Everyone
            &&& match out[0].msg {
                ServerMessage::Chat { from, message } => message == text && from@ == sender_name(pre, conn),
                _ => false,
            }
        },
        ClientMessage::CreateRoom(_) => post == pre && out.len() == 0,
        ClientMessage::JoinRoom(_, _) => post == pre && out.len() == 0,
        ClientMessage::Play(ps) => if !pre.ended && seat_of(pre.connections@, conn) == Some(pre.active_player) {
            played(pre, post, ps, out)
        } else {
            move_gate(pre, post, conn, out)
        },
        ClientMessage::Swap(pieces) => if !pre.ended && seat_of(pre.connections@, conn) == Some(
            pre.active_player,
        ) {
            swapped(pre, post, pieces, out)
        } else {
            move_gate(pre, post, conn, out)
        },
    }
}

/// Whether audience `to` names seat `i`.
pub open spec fn in_audience(to: Audience, i: int) -> bool {
    match to {
        Audience::Everyone => true,
        Audience::AllBut(x) => i != x,
        Audience::Only(x) => i == x,
    }
}

/// `post` is `pre` after seating `player_name` on connection `conn`, and `out` is
/// what the room sends about it.
pub open spec fn joined(pre: Room, post: Room, conn: u64, player_name: String, out: Seq<Delivery>) -> bool {
    let n = pre.players@.len();
    let len = pre.game.bag@.len() as int;
    let k = dealt_count(HAND_SIZE as int, len);
    &&& post.players@.len() == n + 1
    &&& post.players@.take(n as int) == pre.players@
    &&& post.players@[n as int].name == player_name
    &&& post.players@[n as int].score == 0
    &&& post.players@[n as int].connected
    &&& post.players@[n as int].hand@ == pre.game.bag@.skip(len - k).to_multiset()
    &&& post.game.bag@ == pre.game.bag@.take(len - k)
    &&& post.game.board == pre.game.board
    &&& post.connections@ == pre.connections@.push((conn, n as usize))
    &&& post.started
    &&& post.ended == pre.ended
    &&& post.active_player == pre.active_player
    &&& post.name == pre.name
    &&& out.len() == 3
    &&& out[0] == Delivery { to: Audience::AllBut(n as usize), msg: ServerMessage::NewPlayer(player_name) }
    &&& out[1].to == Audience::Only(n as usize)
    &&& match out[1].msg {
        ServerMessage::JoinedRoom { room_name, players, active_player, board, pieces } => {
            &&& room_name == pre.name
            &&& players@ == roster(post.players@)
            &&& active_player == post.active_player
            &&& board@ == post.game.board.entries()
            &&& pieces@.to_multiset() == post.players@[n as int].hand@
        },
        _ => false,
    }
    &&& out[2] == Delivery {
        to: Audience::Everyone,
        msg: ServerMessage::PiecesRemaining(post.game.bag@.len() as usize),
    }
}

} // verus!
