//! A game server whose players connect to it directly.

use crate::dedicated_server::Player;
use crate::ids::{is_uuid, random_uuid};
use crate::messages::WelcomeMessage;
use crate::net::PeerAddr;
use crate::settings::{local_port, number_or, or_text, parse_or, text_of, text_or};
use vstd::prelude::*;

verus! {

/// The values of the environment variables that configure a server.
#[derive(Clone, Debug)]
pub struct ServerVars {
    pub ds_port: Option<String>,
    pub max_players: Option<String>,
    pub zone: Option<String>,
}

/// How a server is set up.
#[derive(Clone, Debug)]
pub struct ServerConfig {
    pub id: String,
    pub ip: String,
    pub port: u16,
    pub zone: String,
    pub max_players: usize,
    pub orchestrator_addr: PeerAddr,
}

impl ServerConfig {
    /// Whether the configuration is what the variables say, with the given identifier.
    pub open spec fn configured(
        self,
        id: Seq<char>,
        vars: ServerVars,
        orchestrator_port: u16,
    ) -> bool {
        &&& self.id@ == id
        &&& self.ip@ == "127.0.0.1"@
        &&& self.port == number_or(text_of(vars.ds_port), u16::MAX as nat, 7001)
        &&& self.zone@ == text_or(text_of(vars.zone), "zone_A"@)
        &&& self.max_players == number_or(text_of(vars.max_players), usize::MAX as nat, 100)
        &&& self.orchestrator_addr == local_port(orchestrator_port)
    }

    /// The configuration that the variables say, with the given identifier.
    pub fn with_id(id: String, vars: ServerVars, orchestrator_port: u16) -> (r: ServerConfig)
        ensures
            r.configured(id@, vars, orchestrator_port),
    {
        ServerConfig {
            id,
            ip: "127.0.0.1".to_owned(),
            port: parse_or(&vars.ds_port, u16::MAX as u64, 7001) as u16,
            zone: or_text(vars.zone, "zone_A"),
            max_players: parse_or(&vars.max_players, usize::MAX as u64, 100) as usize,
            orchestrator_addr: PeerAddr::V4 { ip: 0x7f00_0001, port: orchestrator_port },
        }
    }

    /// The configuration that the variables say, with a new identifier.
    pub fn from_env(vars: ServerVars, orchestrator_port: u16) -> (r: ServerConfig)
        ensures
            is_uuid(r.id@),
            r.configured(r.id@, vars, orchestrator_port),
    {
        ServerConfig::with_id(random_uuid(), vars, orchestrator_port)
    }
}

/// A connected player.
#[derive(Clone, Debug)]
pub struct PlayerEntry {
    pub addr: PeerAddr,
    pub player_id: String,
}

/// The players by address. No address occurs twice.
pub struct PlayerRegistry {
    pub players: Vec<PlayerEntry>,
}

impl View for PlayerRegistry {
    type V = Map<PeerAddr, Seq<char>>;

    open spec fn view(&self) -> Map<PeerAddr, Seq<char>> {
        Map::new(
            |addr: PeerAddr| exists|i: int| self.at(addr, i),
            |addr: PeerAddr| self.players@[choose|i: int| self.at(addr, i)].player_id@,
        )
    }
}

impl PlayerRegistry {
    pub open spec fn at(self, addr: PeerAddr, i: int) -> bool {
        0 <= i < self.players@.len() && self.players@[i].addr == addr
    }

    pub open spec fn wf(self) -> bool {
        forall|i: int, j: int|
            0 <= i < j < self.players@.len() ==> (#[trigger] self.players@[i]).addr != (
            #[trigger] self.players@[j]).addr
    }

    pub fn new() -> (r: PlayerRegistry)
        ensures
            r.wf(),
            r@ == Map::<PeerAddr, Seq<char>>::empty(),
    {
        let r: PlayerRegistry = PlayerRegistry { players: Vec::new() };
        proof {
            assert(r@ =~= Map::empty());
        }
        r
    }

    /// What the registry holds for the address of an entry.
    proof fn lemma_entry(self, i: int)
        requires
            self.wf(),
            0 <= i < self.players@.len(),
        ensures
            self@.contains_key(self.players@[i].addr),
            self@[self.players@[i].addr] == self.players@[i].player_id@,
    {
        let addr = self.players@[i].addr;
        assert(self.at(addr, i));
        let k = choose|k: int| self.at(addr, k);
        assert(k == i) by {
            if k < i {
                assert(self.players@[k].addr != self.players@[i].addr);
            } else if i < k {
                assert(self.players@[i].addr != self.players@[k].addr);
            }
        }
    }

    /// Whether a player is connected from an address.
    pub fn knows(&self, addr: PeerAddr) -> (r: bool)
        ensures
            r == self@.contains_key(addr),
    {
        let mut i: usize = 0;
        while i < self.players.len()
            invariant
                i <= self.players@.len(),
                forall|k: int| 0 <= k < i ==> !self.at(addr, k),
            decreases self.players@.len() - i,
        {
            if self.players[i].addr == addr {
                proof {
                    assert(self.at(addr, i as int));
                }
                return true;
            }
            i = i + 1;
        }
        false
    }

    /// Registers a player under the given identifier, unless one is connected from there.
    pub fn join_as(&mut self, addr: PeerAddr, player_id: String) -> (joined: bool)
        requires
            old(self).wf(),
        ensures
            final(self).wf(),
            joined == !old(self)@.contains_key(addr),
            final(self)@ == (if joined {
                old(self)@.insert(addr, player_id@)
            } else {
                old(self)@
            }),
    {
        if self.knows(addr) {
            return false;
        }
        let ghost before = *self;
        let ghost id = player_id@;
        self.players.push(PlayerEntry { addr, player_id });
        proof {
            let n = before.players@.len() as int;
            assert forall|k: int| 0 <= k < n implies (#[trigger] before.players@[k]).addr != addr by {
                before.lemma_entry(k);
            }
            assert(self.wf());
            let expected = before@.insert(addr, id);
            assert forall|a: PeerAddr| #[trigger] self@.contains_key(a) <==> expected.contains_key(
                a,
            ) by {
                if before@.contains_key(a) {
                    let k = choose|k: int| before.at(a, k);
                    assert(self.at(a, k));
                }
                if self@.contains_key(a) {
                    let k = choose|k: int| self.at(a, k);
                    if k < n {
                        assert(before.at(a, k));
                    }
                }
                assert(self.at(addr, n));
            }
            assert forall|a: PeerAddr| #[trigger] self@.contains_key(a) implies self@[a]
                == expected[a] by {
                let k = choose|k: int| self.at(a, k);
                self.lemma_entry(k);
                if k < n {
                    before.lemma_entry(k);
                }
            }
            assert(self@ =~= expected);
        }
        true
    }

    /// Registers a player under a new identifier, unless one is connected from there.
    pub fn join(&mut self, addr: PeerAddr) -> (r: Option<Player>)
        requires
            old(self).wf(),
        ensures
            final(self).wf(),
            r is Some <==> !old(self)@.contains_key(addr),
            r matches Some(player) ==> is_uuid(player.id@) && final(self)@ == old(self)@.insert(
                addr,
                player.id@,
            ),
            r is None ==> final(self)@ == old(self)@,
    {
        if self.knows(addr) {
            return None;
        }
        let id: String = random_uuid();
        let copy: String = id.clone();
        self.join_as(addr, copy);
        Some(Player { id })
    }
}

/// The answer to a player who joined, with a new identifier.
pub fn greet() -> (r: WelcomeMessage)
    ensures
        is_uuid(r.player_id@),
{
    WelcomeMessage { player_id: random_uuid() }
}

} // verus!
