//! The orchestrator: it keeps the fleet of dedicated servers as large as it has to be.

use crate::dedicated_server::{law_shard_label_gives_number, shard_numbers_of};
use crate::game_server::shard_labels;
use crate::messages::{status_of, status_text, Heartbeat};
use crate::text::{
    decimal,
    joined,
    law_split_undoes_join,
    lemma_decimal,
    pow10,
    same_text,
    split_on,
    texts,
};
use crate::topics::{shard_label, shard_name, string_to_topic};
use crate::wire::{
    build_claim,
    claim_message,
    orchestrator_topic,
    read_u32,
    u32_at,
    TAG_SCALE_DOWN,
    TAG_SCALE_UP,
};
use vstd::prelude::*;
use vstd::string::StringExecFns;

verus! {

/// How long a server is remembered after its last heartbeat, in seconds.
pub const TTL_SECONDS: u64 = 15;

/// How often the fleet is looked at, in seconds.
pub const SCALER_INTERVAL: u64 = 5;

/// How many servers must be available.
pub const HOT_SERVERS_MIN: usize = 2;

/// The port of the first server that is started to have enough of them.
pub const BASE_DS_PORT: u16 = 7001;

/// The first port that is tried for a server of new shards.
pub const FIRST_SHARD_PORT: u16 = 7100;

/// The port behind the last that is tried.
pub const END_SHARD_PORT: u16 = 7200;

/// The shard of the servers that are started to have enough of them.
pub const FALLBACK_SHARD: u32 = 0;

/// What a packet asks of the orchestrator.
#[derive(Clone, Copy, Debug, PartialEq, Eq, Structural)]
pub enum Command {
    /// Nothing.
    Ignored,
    /// To start a server for four shards.
    ScaleUp { s1: u32, s2: u32, s3: u32, s4: u32 },
    /// To stop the server of four shards and start one for their parent.
    ScaleDown { parent: u32, s1: u32, s2: u32, s3: u32, s4: u32 },
    /// To take note of a heartbeat, if it is one.
    Report,
}

/// What a packet asks of the orchestrator.
pub open spec fn command_of(packet: Seq<u8>) -> Command {
    if packet.len() == 0 {
        Command::Ignored
    } else if packet[0] == TAG_SCALE_UP && packet.len() >= 21 {
        Command::ScaleUp {
            s1: u32_at(packet, 5),
            s2: u32_at(packet, 9),
            s3: u32_at(packet, 13),
            s4: u32_at(packet, 17),
        }
    } else if packet[0] == TAG_SCALE_DOWN && packet.len() >= 21 {
        Command::ScaleDown {
            parent: u32_at(packet, 1),
            s1: u32_at(packet, 5),
            s2: u32_at(packet, 9),
            s3: u32_at(packet, 13),
            s4: u32_at(packet, 17),
        }
    } else {
        Command::Report
    }
}

/// Reads a packet.
pub fn read_command(packet: &[u8]) -> (r: Command)
    ensures
        r == command_of(packet@),
{
    let len: usize = packet.len();
    if len == 0 {
        return Command::Ignored;
    }
    if packet[0] == TAG_SCALE_UP && len >= 21 {
        return Command::ScaleUp {
            s1: read_u32(packet, 5),
            s2: read_u32(packet, 9),
            s3: read_u32(packet, 13),
            s4: read_u32(packet, 17),
        };
    }
    if packet[0] == TAG_SCALE_DOWN && len >= 21 {
        return Command::ScaleDown {
            parent: read_u32(packet, 1),
            s1: read_u32(packet, 5),
            s2: read_u32(packet, 9),
            s3: read_u32(packet, 13),
            s4: read_u32(packet, 17),
        };
    }
    Command::Report
}

/// The message by which the orchestrator takes charge of the topic of its commands.
pub fn registration() -> (r: Vec<u8>)
    ensures
        r@ == claim_message(orchestrator_topic()),
{
    let topic: [u8; 32] = string_to_topic("orchestrator_commands");
    build_claim(&topic)
}

/// What is to be done with a server. Servers are known by their first shard.
#[derive(Clone, Debug)]
pub enum FleetStep {
    Stop { key: u32 },
    Start { key: u32, shards: Vec<u32> },
}

/// A `FleetStep` with its shards as a sequence.
pub enum FleetStepView {
    Stop { key: u32 },
    Start { key: u32, shards: Seq<u32> },
}

impl View for FleetStep {
    type V = FleetStepView;

    open spec fn view(&self) -> FleetStepView {
        match *self {
            FleetStep::Stop { key } => FleetStepView::Stop { key },
            FleetStep::Start { key, shards } => FleetStepView::Start { key, shards: shards@ },
        }
    }
}

/// What a command leads to, in order.
pub open spec fn steps_for(command: Command) -> Seq<FleetStepView> {
    match command {
        Command::ScaleUp { s1, s2, s3, s4 } => seq![
            FleetStepView::Start { key: s1, shards: seq![s1, s2, s3, s4] },
        ],
        Command::ScaleDown { parent, s1, s2, s3, s4 } => seq![
            FleetStepView::Stop { key: s1 },
            FleetStepView::Start { key: parent, shards: seq![parent] },
        ],
        _ => Seq::empty(),
    }
}

/// What a command leads to, in order.
pub fn plan_steps(command: Command) -> (steps: Vec<FleetStep>)
    ensures
        steps@.map_values(|s: FleetStep| s@) == steps_for(command),
{
    let mut steps: Vec<FleetStep> = Vec::new();
    match command {
        Command::ScaleUp { s1, s2, s3, s4 } => {
            let shards: Vec<u32> = vec![s1, s2, s3, s4];
            proof {
                assert(shards@ =~= seq![s1, s2, s3, s4]);
            }
            steps.push(FleetStep::Start { key: s1, shards });
        },
        Command::ScaleDown { parent, s1, s2, s3, s4 } => {
            let shards: Vec<u32> = vec![parent];
            proof {
                assert(shards@ =~= seq![parent]);
            }
            steps.push(FleetStep::Stop { key: s1 });
            steps.push(FleetStep::Start { key: parent, shards });
        },
        _ => {},
    }
    proof {
        assert(steps@.map_values(|s: FleetStep| s@) =~= steps_for(command));
    }
    steps
}

/// The port to try after the one that was not free, beginning with the first.
pub fn next_shard_port(tried: Option<u16>) -> (r: Option<u16>)
    ensures
        r == (match tried {
            None => Some(FIRST_SHARD_PORT),
            Some(port) => if FIRST_SHARD_PORT <= port && port + 1 < END_SHARD_PORT {
                Some((port + 1) as u16)
            } else {
                None
            },
        }),
{
    match tried {
        None => Some(FIRST_SHARD_PORT),
        Some(port) => if FIRST_SHARD_PORT <= port && port < END_SHARD_PORT - 1 {
            Some(port + 1)
        } else {
            None
        },
    }
}

/// What is put on record of a server after a heartbeat.
#[derive(Clone, Debug)]
pub struct FleetRecord {
    pub key: String,
    pub id: String,
    pub ip: String,
    pub port: u16,
    pub zone: String,
    pub status: String,
    pub players: usize,
    pub ttl_seconds: u64,
}

/// The key of a server's record.
pub open spec fn record_key(id: Seq<char>) -> Seq<char> {
    "server:"@ + id
}

/// The record for a heartbeat. Whether the server is full is seen from its numbers, whatever
/// it says of itself.
pub fn record_heartbeat(hb: &Heartbeat) -> (r: FleetRecord)
    ensures
        r.key@ == record_key(hb.id@),
        r.id@ == hb.id@,
        r.ip@ == hb.ip@,
        r.port == hb.port,
        r.zone@ == hb.zone@,
        r.status@ == status_text(hb.player_count, hb.max_players),
        r.status@ == "available"@ <==> hb.player_count < hb.max_players,
        r.status@ == "full"@ <==> hb.player_count >= hb.max_players,
        r.players == hb.player_count,
        r.ttl_seconds == TTL_SECONDS,
{
    let mut key: String = "server:".to_owned();
    key.append(hb.id.as_str());
    FleetRecord {
        key,
        id: hb.id.clone(),
        ip: hb.ip.clone(),
        port: hb.port,
        zone: hb.zone.clone(),
        status: status_of(hb.player_count, hb.max_players),
        players: hb.player_count,
        ttl_seconds: TTL_SECONDS,
    }
}

/// Whether a status says that the server takes players.
pub open spec fn says_available(status: Option<String>) -> bool {
    status matches Some(s) && s@ == "available"@
}

/// How many of the servers are available.
pub open spec fn available_among(statuses: Seq<Option<String>>) -> nat
    decreases statuses.len(),
{
    if statuses.len() == 0 {
        0
    } else {
        available_among(statuses.drop_last()) + (if says_available(statuses.last()) {
            1nat
        } else {
            0nat
        })
    }
}

/// How many of the servers are available.
pub fn count_available_servers(statuses: &Vec<Option<String>>) -> (r: usize)
    ensures
        r == available_among(statuses@),
{
    let mut count: usize = 0;
    let mut i: usize = 0;
    proof {
        assert(statuses@.take(0) =~= Seq::empty());
    }
    while i < statuses.len()
        invariant
            i <= statuses@.len(),
            count <= i,
            count == available_among(statuses@.take(i as int)),
        decreases statuses@.len() - i,
    {
        proof {
            assert(statuses@.take(i + 1).drop_last() =~= statuses@.take(i as int));
            assert(statuses@.take(i + 1).last() == statuses@[i as int]);
        }
        if let Some(status) = &statuses[i] {
            if same_text(status.as_str(), "available") {
                count = count + 1;
            }
        }
        i = i + 1;
    }
    proof {
        assert(statuses@.take(i as int) =~= statuses@);
    }
    count
}

/// How many servers are missing.
pub open spec fn missing(available: nat) -> nat {
    if available < HOT_SERVERS_MIN {
        (HOT_SERVERS_MIN - available) as nat
    } else {
        0
    }
}

/// How many servers are missing.
pub fn count_missing(available: usize) -> (r: usize)
    ensures
        r == missing(available as nat),
{
    if available < HOT_SERVERS_MIN {
        HOT_SERVERS_MIN - available
    } else {
        0
    }
}

/// The ports of the servers to start so that enough of them are available, one after the
/// other, and the next port.
pub fn plan_fleet(available: usize, next_port: u16) -> (r: (Vec<u16>, u16))
    requires
        next_port + missing(available as nat) <= u16::MAX,
    ensures
        r.0@ == Seq::new(missing(available as nat), |i: int| (next_port + i) as u16),
        r.1 == next_port + missing(available as nat),
{
    let mut ports: Vec<u16> = Vec::new();
    let mut port: u16 = next_port;
    let needed: usize = count_missing(available);
    let mut i: usize = 0;
    while i < needed
        invariant
            i <= needed,
            port == next_port + i,
            next_port + needed <= u16::MAX,
            ports@ == Seq::new(i as nat, |k: int| (next_port + k) as u16),
        decreases needed - i,
    {
        ports.push(port);
        port = port + 1;
        i = i + 1;
        proof {
            assert(ports@ =~= Seq::new(i as nat, |k: int| (next_port + k) as u16));
        }
    }
    proof {
        assert(ports@ =~= Seq::new(missing(available as nat), |i: int| (next_port + i) as u16));
    }
    (ports, port)
}

/// The variable that tells a server its shards.
pub open spec fn shards_text(shards: Seq<u32>) -> Seq<char> {
    joined(shard_labels(shards), ',')
}

/// The variable that tells a server its shards.
pub fn shards_variable(shards: &Vec<u32>) -> (r: String)
    ensures
        r@ == shards_text(shards@),
{
    let ghost labels = shard_labels(shards@);
    let mut r: String = String::new();
    let mut i: usize = 0;
    proof {
        assert(labels.take(0) =~= Seq::empty());
        assert(r@ =~= joined(labels.take(0), ','));
    }
    while i < shards.len()
        invariant
            i <= shards@.len(),
            labels == shard_labels(shards@),
            r@ == joined(labels.take(i as int), ','),
        decreases shards@.len() - i,
    {
        let name: String = shard_name(shards[i]);
        let ghost before = r@;
        if i > 0 {
            r.append(",");
        }
        r.append(name.as_str());
        proof {
            reveal_strlit(",");
            let more = labels.take(i + 1);
            assert(more.drop_last() =~= labels.take(i as int));
            assert(more.last() == name@);
            if i == 0 {
                assert(r@ =~= more[0]);
            } else {
                assert(r@ =~= before.push(',') + name@);
            }
        }
        i = i + 1;
    }
    proof {
        assert(labels.take(i as int) =~= labels);
    }
    r
}

/// The arguments with which a server is started: cargo has to be told which program to run.
pub open spec fn launch_text(path: Seq<char>) -> Seq<Seq<char>> {
    if path == "cargo"@ {
        seq!["run"@, "-p"@, "dedicated_server"@, "--"@]
    } else {
        Seq::empty()
    }
}

/// The arguments with which a server is started.
pub fn launch_arguments(path: &str) -> (r: Vec<String>)
    ensures
        texts(r@) == launch_text(path@),
{
    let r: Vec<String> = if same_text(path, "cargo") {
        vec![
            "run".to_owned(),
            "-p".to_owned(),
            "dedicated_server".to_owned(),
            "--".to_owned(),
        ]
    } else {
        Vec::new()
    };
    proof {
        assert(texts(r@) =~= launch_text(path@));
    }
    r
}

proof fn lemma_numbers_of_labels(shards: Seq<u32>)
    ensures
        shard_numbers_of(shard_labels(shards)) == shards,
    decreases shards.len(),
{
    if shards.len() > 0 {
        let fewer = shards.drop_last();
        lemma_numbers_of_labels(fewer);
        assert(shard_labels(shards).drop_last() =~= shard_labels(fewer));
        assert(shard_labels(shards).last() == shard_label(shards.last()));
        law_shard_label_gives_number(shards.last());
        assert(fewer.push(shards.last()) =~= shards);
    } else {
        assert(shard_numbers_of(shard_labels(shards)) =~= shards);
    }
}

/// A server reads the very shards that it was started for.
pub proof fn law_shards_variable_is_read_back(shards: Seq<u32>)
    requires
        shards.len() > 0,
    ensures
        split_on(shards_text(shards), ',') == shard_labels(shards),
        shard_numbers_of(split_on(shards_text(shards), ',')) == shards,
{
    let labels = shard_labels(shards);
    assert forall|i: int| 0 <= i < labels.len() implies !(#[trigger] labels[i]).contains(',') by {
        reveal_with_fuel(pow10, 12);
        lemma_decimal(shards[i] as nat, pow10(10), 10);
        let digits = decimal(shards[i] as nat);
        assert(labels[i] == shard_label(shards[i]));
        assert forall|k: int| 0 <= k < labels[i].len() implies labels[i][k] != ',' by {
            if k >= 6 {
                assert(labels[i][k] == digits[k - 6]);
            }
        }
    }
    law_split_undoes_join(labels, ',');
    lemma_numbers_of_labels(shards);
}

} // verus!
