//! The records that the services exchange.

use vstd::prelude::*;

verus! {

/// What a server with so many players is: full where it has as many as it may, else available.
pub open spec fn status_text(player_count: usize, max_players: usize) -> Seq<char> {
    if player_count >= max_players {
        "full"@
    } else {
        "available"@
    }
}

/// What a server with so many players is.
pub fn status_of(player_count: usize, max_players: usize) -> (r: String)
    ensures
        r@ == status_text(player_count, max_players),
        r@ == "full"@ <==> player_count >= max_players,
        r@ == "available"@ <==> player_count < max_players,
{
    proof {
        reveal_strlit("full");
        reveal_strlit("available");
        assert("full"@.len() != "available"@.len());
    }
    if player_count >= max_players {
        "full".to_owned()
    } else {
        "available".to_owned()
    }
}

/// What a game server reports of itself.
#[derive(Debug, Clone)]
pub struct Heartbeat {
    pub id: String,
    pub ip: String,
    pub port: u16,
    pub zone: String,
    pub player_count: usize,
    pub max_players: usize,
    pub status: String,
}

/// Where a server can be reached.
#[derive(Debug, Clone)]
pub struct ServerInfo {
    pub ip: String,
    pub port: u16,
    pub zone: String,
}

/// A player's request to join a shard.
#[derive(Debug, Clone)]
pub struct JoinRequest {
    pub username: String,
}

/// The answer to a player who joined.
#[derive(Debug, Clone)]
pub struct WelcomeMessage {
    pub player_id: String,
}

} // verus!
