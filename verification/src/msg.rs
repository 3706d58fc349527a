//! The messages that the contract takes and the answers it gives.

use crate::state::{Data, GameMove};
use vstd::prelude::*;

verus! {

#[derive(Clone, Copy, Debug, PartialEq, Eq, Structural)]
pub struct InstantiateMsg {}

#[derive(Clone, Debug)]
pub enum ExecuteMsg {
    StartGame { addr: String, first_move: GameMove },
}

#[derive(Clone, Debug)]
pub enum QueryMsg {
    QueryHostGames { addr: String },
    QueryAllGames {},
}

/// Sessions with the bytes of their keys, in ascending order of the keys.
#[derive(Clone, Debug)]
pub struct GamesResponse {
    pub games: Vec<(Vec<u8>, Data)>,
}

impl View for GamesResponse {
    type V = Seq<(Seq<u8>, Data)>;

    open spec fn view(&self) -> Seq<(Seq<u8>, Data)> {
        Seq::new(self.games@.len(), |i: int| (self.games@[i].0@, self.games@[i].1))
    }
}

/// What a successful state-changing call reports: the name of the method, and
/// the owner where the call set one.
#[derive(Clone, Debug)]
pub struct Ack {
    pub method: String,
    pub owner: Option<String>,
}

} // verus!
