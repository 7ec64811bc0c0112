//! The gatekeeper: it lets players in and tells them where to go.

use crate::ids::{is_uuid, random_uuid};
use crate::messages::ServerInfo;
use crate::settings::{number_or, or_text, parse_or, text_of, text_or};
use crate::text::{has_prefix, same_text, starts_with};
use vstd::prelude::*;

verus! {

/// The HTTP status of a refused login.
pub const UNAUTHORIZED: u16 = 401;

/// Who wants to play.
#[derive(Clone, Debug)]
pub struct LoginRequest {
    pub username: String,
    pub password: Option<String>,
}

/// Who plays, and where the broker is.
#[derive(Clone, Debug)]
pub struct LoginResponse {
    pub player_id: String,
    pub broker: ServerInfo,
}

/// Why a request was refused.
#[derive(Clone, Debug)]
pub struct ErrorResponse {
    pub error: String,
}

/// Whether the gatekeeper is up.
#[derive(Clone, Debug)]
pub struct HealthResponse {
    pub status: String,
}

/// Says that the gatekeeper is up.
pub fn health_handler() -> (r: HealthResponse)
    ensures
        r.status@ == "ok"@,
{
    HealthResponse { status: "ok".to_owned() }
}

/// Whether an address belongs to a network nearby.
pub open spec fn is_near(ip: Seq<char>) -> bool {
    has_prefix(ip, "192."@) || has_prefix(ip, "10."@) || has_prefix(ip, "127."@)
}

/// The zone of an address.
pub fn get_zone_for_ip(ip: &str) -> (r: String)
    ensures
        r@ == (if is_near(ip@) {
            "zone_A"@
        } else {
            "zone_B"@
        }),
{
    if starts_with(ip, "192.") || starts_with(ip, "10.") || starts_with(ip, "127.") {
        "zone_A".to_owned()
    } else {
        "zone_B".to_owned()
    }
}

/// Whether a player is let in: it has a name and knows the password.
pub open spec fn is_welcome(request: LoginRequest) -> bool {
    request.username@.len() > 0 && (request.password matches Some(password) && password@
        == "1234"@)
}

/// Whether a response tells a player its identifier and the broker that the variables say.
pub open spec fn is_admission(
    response: LoginResponse,
    player_id: Seq<char>,
    broker_host: Option<String>,
    broker_port: Option<String>,
) -> bool {
    &&& response.player_id@ == player_id
    &&& response.broker.ip@ == text_or(text_of(broker_host), "127.0.0.1"@)
    &&& response.broker.port == number_or(text_of(broker_port), u16::MAX as nat, 9000)
    &&& response.broker.zone@ == "global"@
}

fn accepts(request: &LoginRequest) -> (r: bool)
    ensures
        r == is_welcome(*request),
{
    if request.username.as_str().is_empty() {
        return false;
    }
    match &request.password {
        Some(password) => same_text(password.as_str(), "1234"),
        None => false,
    }
}

/// The response to a player who is let in under the given identifier.
pub fn welcome(
    player_id: String,
    broker_host: Option<String>,
    broker_port: Option<String>,
) -> (r: LoginResponse)
    ensures
        is_admission(r, player_id@, broker_host, broker_port),
        r.player_id@ == player_id@,
        broker_host matches Some(host) ==> r.broker.ip@ == host@,
        broker_host is None ==> r.broker.ip@ == "127.0.0.1"@,
        broker_port is None ==> r.broker.port == 9000,
        r.broker.zone@ == "global"@,
{
    let port: u16 = parse_or(&broker_port, u16::MAX as u64, 9000) as u16;
    LoginResponse {
        player_id,
        broker: ServerInfo {
            ip: or_text(broker_host, "127.0.0.1"),
            port,
            zone: "global".to_owned(),
        },
    }
}

/// Lets a player in under a new identifier, or refuses.
pub fn login_handler(
    request: &LoginRequest,
    broker_host: Option<String>,
    broker_port: Option<String>,
) -> (r: Result<LoginResponse, ErrorResponse>)
    ensures
        r is Ok <==> is_welcome(*request),
        r is Ok <==> request.username@.len() > 0 && request.password is Some && (
        request.password->0)@ == "1234"@,
        r matches Ok(response) ==> is_uuid(response.player_id@) && is_admission(
            response,
            response.player_id@,
            broker_host,
            broker_port,
        ),
        r matches Err(refusal) ==> refusal.error@ == "Invalid credentials"@,
{
    if !accepts(request) {
        return Err(ErrorResponse { error: "Invalid credentials".to_owned() });
    }
    Ok(welcome(random_uuid(), broker_host, broker_port))
}

/// What is on record of a server.
#[derive(Clone, Debug)]
pub struct ServerRecord {
    pub ip: Option<String>,
    pub port: Option<u16>,
    pub zone: Option<String>,
    pub status: Option<String>,
}

impl ServerRecord {
    /// Whether the server takes players: its address is complete, and it is available or does
    /// not say.
    pub open spec fn available(self) -> bool {
        &&& self.ip is Some
        &&& self.port is Some
        &&& self.zone is Some
        &&& self.status matches Some(status) ==> status@ == "available"@
    }

    pub open spec fn in_zone(self, zone: Seq<char>) -> bool {
        self.zone matches Some(own) && own@ == zone
    }

    /// Whether `info` says where the server is.
    pub open spec fn described_by(self, info: ServerInfo) -> bool {
        &&& self.ip matches Some(ip) && ip@ == info.ip@
        &&& self.port == Some(info.port)
        &&& self.zone matches Some(zone) && zone@ == info.zone@
    }

    /// Where the server is, if it takes players.
    fn offer(&self) -> (r: Option<ServerInfo>)
        ensures
            r is Some <==> self.available(),
            r matches Some(info) ==> self.described_by(info),
    {
        if let Some(status) = &self.status {
            if !same_text(status.as_str(), "available") {
                return None;
            }
        }
        match (&self.ip, self.port, &self.zone) {
            (Some(ip), Some(port), Some(zone)) => Some(
                ServerInfo { ip: ip.clone(), port, zone: zone.clone() },
            ),
            _ => None,
        }
    }
}

/// A search for a server, record by record.
#[derive(Clone, Debug)]
pub struct ServerSearch {
    /// The first server that takes players, in another zone.
    pub fallback: Option<ServerInfo>,
}

impl ServerSearch {
    pub fn new() -> (r: ServerSearch)
        ensures
            r.fallback is None,
    {
        ServerSearch { fallback: None }
    }

    /// Looks at one more record, and ends the search where the server takes players in the
    /// zone.
    pub fn consider(&mut self, record: &ServerRecord, target_zone: &str) -> (r: Option<ServerInfo>)
        ensures
            r is Some <==> record.available() && record.in_zone(target_zone@),
            r matches Some(info) ==> record.described_by(info),
            record.available() && !record.in_zone(target_zone@) && old(self).fallback is None ==> (
            final(self).fallback matches Some(info) && record.described_by(info)),
            !(record.available() && !record.in_zone(target_zone@) && old(self).fallback is None)
                ==> *final(self) == *old(self),
    {
        match record.offer() {
            Some(info) => {
                if same_text(info.zone.as_str(), target_zone) {
                    return Some(info);
                }
                if self.fallback.is_none() {
                    self.fallback = Some(info);
                }
                None
            },
            None => None,
        }
    }
}

/// Whether the record at `i` is the first of those up to `end` that takes players in the zone.
pub open spec fn first_in_zone(
    records: Seq<ServerRecord>,
    end: int,
    zone: Seq<char>,
    i: int,
) -> bool {
    &&& 0 <= i < end
    &&& records[i].available() && records[i].in_zone(zone)
    &&& forall|k: int|
        0 <= k < i ==> !((#[trigger] records[k]).available() && records[k].in_zone(zone))
}

/// Whether none of the records up to `end` takes players in the zone.
pub open spec fn none_in_zone(records: Seq<ServerRecord>, end: int, zone: Seq<char>) -> bool {
    forall|k: int|
        0 <= k < end ==> !((#[trigger] records[k]).available() && records[k].in_zone(zone))
}

/// Whether the record at `i` is the first of those up to `end` that takes players.
pub open spec fn first_available(records: Seq<ServerRecord>, end: int, i: int) -> bool {
    &&& 0 <= i < end
    &&& records[i].available()
    &&& forall|k: int| 0 <= k < i ==> !(#[trigger] records[k]).available()
}

/// The server to play on: the first that takes players in the zone, or else the first that
/// takes players at all.
pub fn find_available_server(records: &Vec<ServerRecord>, target_zone: &str) -> (r: Option<
    ServerInfo,
>)
    ensures
        match r {
            Some(info) => {
                ||| exists|i: int|
                    first_in_zone(records@, records@.len() as int, target_zone@, i)
                        && #[trigger] records@[i].described_by(info)
                ||| none_in_zone(records@, records@.len() as int, target_zone@) && exists|i: int|
                    first_available(records@, records@.len() as int, i)
                        && #[trigger] records@[i].described_by(info)
            },
            None => forall|k: int| 0 <= k < records@.len() ==> !(#[trigger] records@[k]).available(),
        },
{
    let mut search: ServerSearch = ServerSearch::new();
    let mut i: usize = 0;
    while i < records.len()
        invariant
            i <= records@.len(),
            none_in_zone(records@, i as int, target_zone@),
            match search.fallback {
                Some(info) => exists|k: int|
                    first_available(records@, i as int, k) && #[trigger] records@[k].described_by(
                        info,
                    ),
                None => forall|k: int| 0 <= k < i ==> !(#[trigger] records@[k]).available(),
            },
        decreases records@.len() - i,
    {
        let ghost before = search;
        if let Some(info) = search.consider(&records[i], target_zone) {
            proof {
                assert(first_in_zone(records@, records@.len() as int, target_zone@, i as int));
                assert(records@[i as int].described_by(info));
            }
            return Some(info);
        }
        proof {
            if before.fallback is Some {
                let info = before.fallback->0;
                let k = choose|k: int|
                    first_available(records@, i as int, k) && #[trigger] records@[k].described_by(
                        info,
                    );
                assert(first_available(records@, i + 1, k) && records@[k].described_by(info));
            } else if records@[i as int].available() {
                let info = search.fallback->0;
                assert(first_available(records@, i + 1, i as int) && records@[i as int].described_by(
                    info,
                ));
            }
        }
        i = i + 1;
    }
    search.fallback
}

} // verus!
