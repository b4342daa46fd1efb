use pont::hand::Hand;
use pont::message::{Audience, ClientMessage, Delivery, ServerMessage};
use pont::piece::{Color, Piece, Shape};
use pont::room::{JoinError, Room};

const SHAPES: [Shape; 6] = [Shape::Clover, Shape::Star, Shape::Square, Shape::Diamond, Shape::Cross, Shape::Circle];
const COLORS: [Color; 6] = [Color::Orange, Color::Yellow, Color::Green, Color::Red, Color::Blue, Color::Purple];

fn full_set() -> Vec<Piece> {
    let mut v = Vec::new();
    for c in COLORS.iter() {
        for s in SHAPES.iter() {
            for _ in 0..3 {
                v.push((*s, *c));
            }
        }
    }
    v
}

fn without(mut from: Vec<Piece>, taken: &[Piece]) -> Vec<Piece> {
    for p in taken {
        let i = from.iter().position(|q| q == p).unwrap();
        from.remove(i);
    }
    from
}

fn total_pieces(r: &Room) -> usize {
    r.game.bag.len() + r.game.board.len() + r.players.iter().map(|p| p.hand.len()).sum::<usize>()
}

/// A room whose players (on connections 1, 2, ...) hold the given hands, with the
/// rest of the set in the bag.
fn room_with(hands: Vec<Vec<Piece>>) -> Room {
    let mut r = Room::new("quiet brave otter".to_string());
    for (i, _) in hands.iter().enumerate() {
        r.add_player(i as u64 + 1, format!("p{}", i)).unwrap();
    }
    let mut rest = full_set();
    for (i, h) in hands.into_iter().enumerate() {
        rest = without(rest, &h);
        r.players[i].hand = Hand::from_vec(h);
    }
    r.game.bag = rest;
    r
}

const RED3: [Piece; 3] = [(Shape::Clover, Color::Red), (Shape::Star, Color::Red), (Shape::Square, Color::Red)];

#[test]
fn fresh_room_two_players() {
    let mut r = Room::new("a b c".to_string());
    let out = r.add_player(7, "ann".to_string()).unwrap();
    assert_eq!(out.len(), 3);
    assert_eq!(out[0], Delivery { to: Audience::AllBut(0), msg: ServerMessage::NewPlayer("ann".to_string()) });
    match &out[1].msg {
        ServerMessage::JoinedRoom { room_name, players, active_player, board, pieces } => {
            assert_eq!(room_name, "a b c");
            assert_eq!(players, &vec![("ann".to_string(), 0, true)]);
            assert_eq!(*active_player, 0);
            assert!(board.is_empty());
            assert_eq!(pieces.len(), 6);
        }
        m => panic!("unexpected {:?}", m),
    }
    assert_eq!(out[1].to, Audience::Only(0));
    assert_eq!(out[2], Delivery { to: Audience::Everyone, msg: ServerMessage::PiecesRemaining(102) });
    r.add_player(8, "bob".to_string()).unwrap();
    assert_eq!(r.game.bag.len(), 96);
    assert_eq!(r.players[0].hand.len() + r.players[1].hand.len(), 12);
    assert!(r.started);
    assert_eq!(total_pieces(&r), 108);
}

#[test]
fn join_refused_when_bag_empty_or_seated() {
    let mut r = room_with(vec![full_set()]);
    assert_eq!(r.add_player(9, "late".to_string()).err(), Some(JoinError::NoPiecesLeft));
    assert_eq!(r.players.len(), 1);
    let mut r = Room::new("x".to_string());
    r.add_player(1, "ann".to_string()).unwrap();
    assert_eq!(r.add_player(1, "again".to_string()).err(), Some(JoinError::AlreadySeated));
    assert_eq!(r.players.len(), 1);
}

#[test]
fn legal_play_is_accepted() {
    let mut hand = RED3.to_vec();
    hand.extend([(Shape::Cross, Color::Blue), (Shape::Cross, Color::Green), (Shape::Circle, Color::Green)]);
    let mut r = room_with(vec![hand, vec![]]);
    let play = vec![(RED3[0], 0, 0), (RED3[1], 1, 0), (RED3[2], 2, 0)];
    let bag_before = r.game.bag.len();
    let out = r.on_message(1, ClientMessage::Play(play.clone()));
    assert_eq!(out.len(), 5);
    assert_eq!(out[0], Delivery { to: Audience::Everyone, msg: ServerMessage::PlayerScore { delta: 3, total: 3 } });
    assert_eq!(out[1], Delivery { to: Audience::Everyone, msg: ServerMessage::PiecesRemaining(bag_before - 3) });
    match &out[2].msg {
        ServerMessage::MoveAccepted(d) => assert_eq!(d.len(), 3),
        m => panic!("unexpected {:?}", m),
    }
    assert_eq!(out[3], Delivery { to: Audience::AllBut(0), msg: ServerMessage::Played(play) });
    assert_eq!(out[4], Delivery { to: Audience::Everyone, msg: ServerMessage::PlayerTurn(1) });
    assert_eq!(r.game.board.len(), 3);
    assert_eq!(r.players[0].score, 3);
    assert_eq!(r.players[0].hand.len(), 6);
    assert_eq!(r.active_player, 1);
    assert_eq!(total_pieces(&r), 108);
}

#[test]
fn illegal_run_is_rejected() {
    let hand = vec![(Shape::Clover, Color::Red), (Shape::Star, Color::Blue)];
    let mut r = room_with(vec![hand, vec![]]);
    let out = r.on_message(1, ClientMessage::Play(vec![(hand_piece(0), 0, 0), (hand_piece(1), 1, 0)]));
    assert_eq!(out, vec![Delivery { to: Audience::Only(0), msg: ServerMessage::MoveRejected }]);
    assert_eq!(r.game.board.len(), 0);
    assert_eq!(r.players[0].hand.len(), 2);
    assert_eq!(r.active_player, 0);
}

fn hand_piece(i: usize) -> Piece {
    [(Shape::Clover, Color::Red), (Shape::Star, Color::Blue)][i]
}

#[test]
fn non_linear_play_is_rejected() {
    let hand = vec![(Shape::Clover, Color::Red), (Shape::Star, Color::Red)];
    let mut r = room_with(vec![hand.clone(), vec![]]);
    let out = r.on_message(1, ClientMessage::Play(vec![(hand[0], 0, 0), (hand[1], 1, 1)]));
    assert_eq!(out, vec![Delivery { to: Audience::Only(0), msg: ServerMessage::MoveRejected }]);
    assert_eq!(r.game.board.len(), 0);
    assert_eq!(r.active_player, 0);
}

#[test]
fn unowned_piece_is_rejected() {
    let hand = vec![(Shape::Clover, Color::Red)];
    let mut r = room_with(vec![hand, vec![]]);
    let out = r.on_message(1, ClientMessage::Play(vec![((Shape::Star, Color::Red), 0, 0)]));
    assert_eq!(out, vec![Delivery { to: Audience::Only(0), msg: ServerMessage::MoveRejected }]);
    assert_eq!(r.players[0].hand.len(), 1);
    assert_eq!(r.game.board.len(), 0);
}

#[test]
fn occupied_cell_is_rejected() {
    let mut hand = RED3.to_vec();
    hand.push((Shape::Circle, Color::Red));
    let mut r = room_with(vec![hand, vec![]]);
    r.on_message(1, ClientMessage::Play(vec![(RED3[0], 0, 0)]));
    r.active_player = 0;
    let out = r.on_message(1, ClientMessage::Play(vec![((Shape::Circle, Color::Red), 0, 0)]));
    assert_eq!(out, vec![Delivery { to: Audience::Only(0), msg: ServerMessage::MoveRejected }]);
    assert_eq!(r.game.board.len(), 1);
}

#[test]
fn out_of_turn_is_ignored() {
    let mut r = room_with(vec![RED3.to_vec(), vec![(Shape::Star, Color::Blue)]]);
    let out = r.on_message(2, ClientMessage::Play(vec![((Shape::Star, Color::Blue), 0, 0)]));
    assert!(out.is_empty());
    assert_eq!(r.game.board.len(), 0);
    let out = r.on_message(99, ClientMessage::Play(vec![((Shape::Star, Color::Blue), 0, 0)]));
    assert!(out.is_empty());
}

#[test]
fn disconnect_of_active_player() {
    let mut r = Room::new("room".to_string());
    r.add_player(1, "ann".to_string()).unwrap();
    r.add_player(2, "bob".to_string()).unwrap();
    let bag_before = r.game.bag.len();
    let held = r.players[0].hand.len();
    let out = r.on_message(1, ClientMessage::Disconnected);
    assert_eq!(r.game.bag.len(), bag_before + held);
    assert!(r.players[0].hand.is_empty());
    assert!(!r.players[0].connected);
    assert_eq!(r.active_player, 1);
    assert_eq!(
        out,
        vec![
            Delivery { to: Audience::Everyone, msg: ServerMessage::PlayerDisconnected(0) },
            Delivery { to: Audience::Everyone, msg: ServerMessage::PiecesRemaining(bag_before + held) },
            Delivery { to: Audience::Everyone, msg: ServerMessage::PlayerTurn(1) },
        ]
    );
    assert_eq!(r.players.len(), 2);
    assert!(r.running());
    assert_eq!(total_pieces(&r), 108);
    r.on_message(2, ClientMessage::Disconnected);
    assert!(!r.running());
    assert_eq!(r.game.bag.len(), 108);
}

#[test]
fn disconnect_of_unknown_connection() {
    let mut r = Room::new("room".to_string());
    r.add_player(1, "ann".to_string()).unwrap();
    assert!(r.on_message(5, ClientMessage::Disconnected).is_empty());
    assert!(r.players[0].connected);
}

#[test]
fn end_of_game_with_tie() {
    let mut rest = full_set();
    rest = without(rest, &RED3);
    let mut r = room_with(vec![RED3.to_vec(), rest]);
    assert!(r.game.bag.is_empty());
    r.players[1].score = 9;
    let out = r.on_message(1, ClientMessage::Play(vec![(RED3[0], 0, 0), (RED3[1], 1, 0), (RED3[2], 2, 0)]));
    assert_eq!(out.len(), 5);
    assert_eq!(out[0], Delivery { to: Audience::Everyone, msg: ServerMessage::PlayerScore { delta: 9, total: 9 } });
    assert_eq!(out[4], Delivery { to: Audience::Everyone, msg: ServerMessage::ItsOver(0) });
    assert!(r.ended);
    let after = r.on_message(1, ClientMessage::Play(vec![]));
    assert_eq!(after, vec![Delivery { to: Audience::Only(0), msg: ServerMessage::MoveRejected }]);
}

#[test]
fn end_of_game_higher_score_wins() {
    let rest = without(full_set(), &RED3);
    let mut r = room_with(vec![rest, RED3.to_vec()]);
    r.active_player = 1;
    r.players[0].score = 10;
    let out = r.on_message(2, ClientMessage::Play(vec![(RED3[0], 0, 0), (RED3[1], 0, 1), (RED3[2], 0, 2)]));
    assert_eq!(out[4], Delivery { to: Audience::Everyone, msg: ServerMessage::ItsOver(0) });
}

#[test]
fn swap_exchanges_and_passes_turn() {
    let hand = vec![(Shape::Clover, Color::Red), (Shape::Star, Color::Red)];
    let mut r = room_with(vec![hand.clone(), vec![]]);
    let bag_before = r.game.bag.len();
    let out = r.on_message(1, ClientMessage::Swap(vec![hand[0]]));
    assert_eq!(out.len(), 3);
    assert_eq!(out[0].to, Audience::Only(0));
    assert_eq!(out[1], Delivery { to: Audience::Everyone, msg: ServerMessage::Swapped(1) });
    assert_eq!(out[2], Delivery { to: Audience::Everyone, msg: ServerMessage::PlayerTurn(1) });
    assert_eq!(r.game.bag.len(), bag_before);
    assert_eq!(r.players[0].hand.len(), 2);
    assert_eq!(r.active_player, 1);
    assert_eq!(total_pieces(&r), 108);
}

#[test]
fn swap_refused_without_pieces_or_bag() {
    let hand = vec![(Shape::Clover, Color::Red)];
    let mut r = room_with(vec![hand.clone(), vec![]]);
    let out = r.on_message(1, ClientMessage::Swap(vec![(Shape::Star, Color::Red)]));
    assert_eq!(out, vec![Delivery { to: Audience::Only(0), msg: ServerMessage::MoveRejected }]);
    assert_eq!(r.active_player, 0);
    let rest = without(full_set(), &hand);
    let mut r = room_with(vec![hand.clone(), rest]);
    let out = r.on_message(1, ClientMessage::Swap(hand));
    assert_eq!(out, vec![Delivery { to: Audience::Only(0), msg: ServerMessage::MoveRejected }]);
    assert_eq!(r.players[0].hand.len(), 1);
    assert_eq!(r.active_player, 0);
}

#[test]
fn chat_is_tagged_with_sender() {
    let mut r = Room::new("room".to_string());
    r.add_player(1, "ann".to_string()).unwrap();
    let out = r.on_message(1, ClientMessage::Chat("hi".to_string()));
    assert_eq!(
        out,
        vec![Delivery {
            to: Audience::Everyone,
            msg: ServerMessage::Chat { from: "ann".to_string(), message: "hi".to_string() }
        }]
    );
    let out = r.on_message(3, ClientMessage::Chat("who".to_string()));
    assert_eq!(
        out[0].msg,
        ServerMessage::Chat { from: "unknown".to_string(), message: "who".to_string() }
    );
}

#[test]
fn room_messages_in_a_room_are_ignored() {
    let mut r = Room::new("room".to_string());
    r.add_player(1, "ann".to_string()).unwrap();
    assert!(r.on_message(1, ClientMessage::CreateRoom("x".to_string())).is_empty());
    assert!(r.on_message(1, ClientMessage::JoinRoom("x".to_string(), "y".to_string())).is_empty());
    assert_eq!(r.players.len(), 1);
}

#[test]
fn recipients_follow_audience() {
    let mut r = Room::new("room".to_string());
    r.add_player(1, "a".to_string()).unwrap();
    r.add_player(2, "b".to_string()).unwrap();
    r.add_player(3, "c".to_string()).unwrap();
    r.on_message(2, ClientMessage::Disconnected);
    assert_eq!(r.recipients(Audience::Everyone), vec![0, 2]);
    assert_eq!(r.recipients(Audience::AllBut(0)), vec![2]);
    assert_eq!(r.recipients(Audience::Only(1)), Vec::<usize>::new());
    assert_eq!(r.recipients(Audience::Only(2)), vec![2]);
    assert_eq!(r.seat(3), Some(2));
    assert_eq!(r.seat(2), None);
}

#[test]
fn turn_skips_disconnected_players() {
    let mut r = room_with(vec![vec![(Shape::Clover, Color::Red)], vec![], vec![]]);
    r.on_message(2, ClientMessage::Disconnected);
    let out = r.on_message(1, ClientMessage::Play(vec![((Shape::Clover, Color::Red), 0, 0)]));
    assert_eq!(out[4], Delivery { to: Audience::Everyone, msg: ServerMessage::PlayerTurn(2) });
}

#[test]
fn every_piece_stays_accounted_for() {
    let mut r = Room::new("room".to_string());
    r.add_player(1, "ann".to_string()).unwrap();
    r.add_player(2, "bob".to_string()).unwrap();
    r.add_player(3, "cy".to_string()).unwrap();
    let first = r.players[0].hand.to_vec()[0];
    r.on_message(1, ClientMessage::Play(vec![(first, 0, 0)]));
    let second = r.players[1].hand.to_vec();
    r.on_message(2, ClientMessage::Swap(vec![second[0], second[1]]));
    r.on_message(3, ClientMessage::Disconnected);
    let mut all: Vec<Piece> = r.game.bag.clone();
    for p in r.players.iter() {
        all.extend(p.hand.to_vec());
    }
    for (_, p) in r.game.board.to_vec() {
        all.push(p);
    }
    let mut expected = full_set();
    expected.sort_by_key(|p| format!("{:?}", p));
    all.sort_by_key(|p| format!("{:?}", p));
    assert_eq!(all, expected);
    assert_eq!(r.game.board.len(), 1);
}
