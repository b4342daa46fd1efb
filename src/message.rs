use vstd::prelude::*;
use crate::board::{Entry, Placement};
use crate::piece::Piece;

verus! {

/// What a client sends.
#[derive(Clone, Debug, PartialEq, Eq)]
pub enum ClientMessage {
    CreateRoom(String),
    JoinRoom(String, String),
    Chat(String),
    Play(Vec<Placement>),
    Swap(Vec<Piece>),
    /// Never sent by a client: stands for the end of its connection.
    Disconnected,
}

/// What the server sends to a client.
#[derive(Clone, Debug, PartialEq, Eq)]
pub enum ServerMessage {
    JoinedRoom {
        room_name: String,
        players: Vec<(String, u32, bool)>,
        active_player: usize,
        board: Vec<Entry>,
        pieces: Vec<Piece>,
    },
    UnknownRoom(String),
    JoinFailed(String),
    Chat { from: String, message: String },
    Information(String),
    NewPlayer(String),
    PlayerDisconnected(usize),
    PlayerTurn(usize),
    Played(Vec<Placement>),
    Swapped(usize),
    MoveAccepted(Vec<Piece>),
    MoveRejected,
    PlayerScore { delta: u32, total: u32 },
    PiecesRemaining(usize),
    ItsOver(usize),
}

/// Which players of a room a message goes to: always connected ones only.
#[derive(Copy, Clone, Debug, PartialEq, Eq, Structural)]
pub enum Audience {
    Everyone,
    AllBut(usize),
    Only(usize),
}

/// A message for an audience.
#[derive(Clone, Debug, PartialEq, Eq)]
pub struct Delivery {
    pub to: Audience,
    pub msg: ServerMessage,
}

} // verus!
