//! What the orchestrator does with its fleet, and how a dedicated server is set up and reports.

use crate::binary32::Binary32;
use crate::dedicated_server::{
    broadcast_players,
    fits_topic,
    game_data,
    moved,
    name_topic,
    player_bytes,
    players_bytes,
    publications,
    ready_signals,
    shard_number_of,
    shard_numbers_of,
    shard_registrations,
    Authority,
    NewPlayer,
    PlayerState,
    ServerConfig,
    ServerVars,
    WarmupTimer,
};
use crate::gate_laws::{law_parts_stand_between_separators, law_written_numbers_are_read};
use crate::messages::status_text;
use crate::net::PeerAddr;
use crate::orchestrator::{
    available_among,
    command_of,
    launch_text,
    missing,
    record_key,
    steps_for,
    Command,
    FleetStepView,
};
use crate::spatial_laws::lemma_push_contains;
use crate::text::{decimal, joined, law_split_undoes_join, split_on, texts, unsigned};
use crate::topics::topic_of;
use crate::wire::{
    claim_message,
    law_u32_round_trip,
    le32,
    publish_message,
    ready_message,
    u32_at,
};
use vstd::prelude::*;
use vstd::utf8::encode_utf8;

verus! {

/// A server is full exactly where it has as many players as it may or more, and available
/// exactly where it has fewer, be it empty or not.
pub proof fn law_status_goes_by_the_numbers(player_count: usize, max_players: usize)
    ensures
        player_count >= max_players <==> status_text(player_count, max_players) == seq![
            'f',
            'u',
            'l',
            'l',
        ],
        player_count < max_players <==> status_text(player_count, max_players) == seq![
            'a',
            'v',
            'a',
            'i',
            'l',
            'a',
            'b',
            'l',
            'e',
        ],
{
    reveal_strlit("full");
    reveal_strlit("available");
    let full = seq!['f', 'u', 'l', 'l'];
    let available = seq!['a', 'v', 'a', 'i', 'l', 'a', 'b', 'l', 'e'];
    assert("full"@ =~= full);
    assert("available"@ =~= available);
    assert(full.len() != available.len());
}

/// One player more does not make a full server available, nor one fewer an available one full.
pub proof fn law_status_changes_with_the_players_once(few: usize, many: usize, max_players: usize)
    requires
        few <= many,
    ensures
        status_text(few, max_players) == "full"@ ==> status_text(many, max_players) == "full"@,
        status_text(many, max_players) == "available"@ ==> status_text(few, max_players)
            == "available"@,
{
    reveal_strlit("full");
    reveal_strlit("available");
    assert("full"@.len() != "available"@.len());
}

/// Five numbers behind the first byte of a packet.
proof fn lemma_five_numbers(tag: u8, n0: u32, n1: u32, n2: u32, n3: u32, n4: u32, rest: Seq<u8>)
    ensures
        ({
            let packet = seq![tag] + le32(n0) + le32(n1) + le32(n2) + le32(n3) + le32(n4) + rest;
            &&& packet.len() == 21 + rest.len()
            &&& packet[0] == tag
            &&& u32_at(packet, 1) == n0
            &&& u32_at(packet, 5) == n1
            &&& u32_at(packet, 9) == n2
            &&& u32_at(packet, 13) == n3
            &&& u32_at(packet, 17) == n4
        }),
{
    let p0 = seq![tag] + le32(n0);
    let p1 = p0 + le32(n1);
    let p2 = p1 + le32(n2);
    let p3 = p2 + le32(n3);
    let p4 = p3 + le32(n4);
    lemma_number_behind(seq![tag], n0);
    lemma_number_behind(p0, n1);
    lemma_number_behind(p1, n2);
    lemma_number_behind(p2, n3);
    lemma_number_behind(p3, n4);
    lemma_number_before(p0, le32(n1), 1);
    lemma_number_before(p1, le32(n2), 1);
    lemma_number_before(p2, le32(n3), 1);
    lemma_number_before(p3, le32(n4), 1);
    lemma_number_before(p4, rest, 1);
    lemma_number_before(p1, le32(n2), 5);
    lemma_number_before(p2, le32(n3), 5);
    lemma_number_before(p3, le32(n4), 5);
    lemma_number_before(p4, rest, 5);
    lemma_number_before(p2, le32(n3), 9);
    lemma_number_before(p3, le32(n4), 9);
    lemma_number_before(p4, rest, 9);
    lemma_number_before(p3, le32(n4), 13);
    lemma_number_before(p4, rest, 13);
    lemma_number_before(p4, rest, 17);
}

/// A number at the end.
proof fn lemma_number_behind(front: Seq<u8>, x: u32)
    ensures
        u32_at(front + le32(x), front.len() as int) == x,
{
    law_u32_round_trip(x, front, Seq::empty());
    assert(front + le32(x) =~= front + le32(x) + Seq::empty());
}

/// A number stays where it is when something follows.
proof fn lemma_number_before(front: Seq<u8>, rest: Seq<u8>, at: int)
    requires
        0 <= at,
        at + 4 <= front.len(),
    ensures
        u32_at(front + rest, at) == u32_at(front, at),
{
}

/// A request for new shards starts one server for the four, known by the first of them.
pub proof fn law_divisions_start_a_server(
    parent: u32,
    s1: u32,
    s2: u32,
    s3: u32,
    s4: u32,
    rest: Seq<u8>,
)
    ensures
        ({
            let packet = seq![0x13u8] + le32(parent) + le32(s1) + le32(s2) + le32(s3) + le32(s4)
                + rest;
            steps_for(command_of(packet)) == seq![
                FleetStepView::Start { key: s1, shards: seq![s1, s2, s3, s4] },
            ]
        }),
{
    lemma_five_numbers(0x13, parent, s1, s2, s3, s4, rest);
}

/// A request to merge stops the server that is known by the first of the four, and then starts
/// one for their parent. The server it stops is the one that a request for the same four started.
pub proof fn law_merges_stop_that_server(
    parent: u32,
    s1: u32,
    s2: u32,
    s3: u32,
    s4: u32,
    rest: Seq<u8>,
    more: Seq<u8>,
)
    ensures
        ({
            let down = steps_for(
                command_of(
                    seq![0x15u8] + le32(parent) + le32(s1) + le32(s2) + le32(s3) + le32(s4) + rest,
                ),
            );
            let up = steps_for(
                command_of(
                    seq![0x13u8] + le32(parent) + le32(s1) + le32(s2) + le32(s3) + le32(s4) + more,
                ),
            );
            &&& down == seq![
                FleetStepView::Stop { key: s1 },
                FleetStepView::Start { key: parent, shards: seq![parent] },
            ]
            &&& up[0]->Start_key == down[0]->Stop_key
        }),
{
    lemma_five_numbers(0x15, parent, s1, s2, s3, s4, rest);
    lemma_five_numbers(0x13, parent, s1, s2, s3, s4, more);
}

/// Whatever else is sent may be a heartbeat, and starts and stops nothing.
pub proof fn law_other_packets_may_be_heartbeats(packet: Seq<u8>)
    requires
        packet.len() > 0,
        packet.len() < 21 || (packet[0] != 0x13 && packet[0] != 0x15),
    ensures
        command_of(packet) == Command::Report,
        steps_for(command_of(packet)).len() == 0,
        command_of(Seq::empty()) == Command::Ignored,
        steps_for(Command::Ignored).len() == 0,
{
}

/// Servers are counted one by one: those that say so are available, the others are not.
pub proof fn law_available_servers_are_counted(
    some: Seq<Option<String>>,
    others: Seq<Option<String>>,
    status: Option<String>,
)
    ensures
        available_among(some + others) == available_among(some) + available_among(others),
        available_among(seq![status]) == (if status is Some && (status->0)@ == seq![
            'a',
            'v',
            'a',
            'i',
            'l',
            'a',
            'b',
            'l',
            'e',
        ] {
            1nat
        } else {
            0nat
        }),
        available_among(Seq::empty()) == 0,
        available_among(some) <= some.len(),
    decreases others.len(),
{
    reveal_strlit("available");
    assert("available"@ =~= seq!['a', 'v', 'a', 'i', 'l', 'a', 'b', 'l', 'e']);
    reveal_with_fuel(available_among, 2);
    assert(seq![status].drop_last() =~= Seq::empty());
    lemma_available_bounded(some);
    if others.len() > 0 {
        law_available_servers_are_counted(some, others.drop_last(), status);
        assert((some + others).drop_last() =~= some + others.drop_last());
        assert((some + others).last() == others.last());
    } else {
        assert(some + others =~= some);
    }
}

proof fn lemma_available_bounded(statuses: Seq<Option<String>>)
    ensures
        available_among(statuses) <= statuses.len(),
    decreases statuses.len(),
{
    if statuses.len() > 0 {
        lemma_available_bounded(statuses.drop_last());
    }
}

/// With the servers that are missing, two are available; where two are, none is missing.
pub proof fn law_two_servers_are_kept_available(available: nat)
    ensures
        available + missing(available) >= 2,
        missing(available) > 0 ==> available + missing(available) == 2,
        available >= 2 ==> missing(available) == 0,
{
}

/// Servers with different identifiers are on record under different keys.
pub proof fn law_records_have_their_own_keys(a: Seq<char>, b: Seq<char>)
    ensures
        record_key(a) == seq!['s', 'e', 'r', 'v', 'e', 'r', ':'] + a,
        record_key(a) == record_key(b) ==> a == b,
{
    reveal_strlit("server:");
    let head = seq!['s', 'e', 'r', 'v', 'e', 'r', ':'];
    assert("server:"@ =~= head);
    assert(record_key(a).skip(7) =~= a);
    assert(record_key(b).skip(7) =~= b);
}

/// Only cargo is told which program to run.
pub proof fn law_programs_start_without_arguments(path: Seq<char>)
    ensures
        path == seq!['c', 'a', 'r', 'g', 'o'] <==> launch_text(path).len() != 0,
        path == seq!['c', 'a', 'r', 'g', 'o'] ==> launch_text(path) == seq![
            "run"@,
            "-p"@,
            "dedicated_server"@,
            "--"@,
        ],
{
    reveal_strlit("cargo");
    assert("cargo"@ =~= seq!['c', 'a', 'r', 'g', 'o']);
}

/// A server is set up as the variables say, and as the defaults say where they do not.
pub proof fn law_servers_are_set_up_as_the_variables_say(
    config: ServerConfig,
    id: Seq<char>,
    vars: ServerVars,
    orchestrator_port: u16,
    broker_addr: PeerAddr,
    port: u16,
    players: u32,
)
    requires
        config.configured(id, vars, orchestrator_port, broker_addr),
    ensures
        config.id@ == id,
        config.ip@ == "127.0.0.1"@,
        config.orchestrator_addr == (PeerAddr::V4 { ip: 0x7f00_0001, port: orchestrator_port }),
        config.broker_addr == broker_addr,
        vars.ds_port is None ==> config.port == 7001,
        vars.ds_port is Some && (vars.ds_port->0)@ == decimal(port as nat) ==> config.port == port,
        vars.ds_port is Some && unsigned((vars.ds_port->0)@, 65535) is None ==> config.port == 7001,
        vars.ds_port is Some && unsigned((vars.ds_port->0)@, 65535) is Some ==> config.port
            == unsigned((vars.ds_port->0)@, 65535)->0,
        vars.max_players is None ==> config.max_players == 100,
        vars.max_players is Some && unsigned((vars.max_players->0)@, usize::MAX as nat) is None
            ==> config.max_players == 100,
        vars.max_players is Some && unsigned((vars.max_players->0)@, usize::MAX as nat) is Some
            ==> config.max_players == unsigned((vars.max_players->0)@, usize::MAX as nat)->0,
        vars.max_players is Some && (vars.max_players->0)@ == decimal(players as nat)
            ==> config.max_players == players,
        vars.zone is None ==> config.zone@ == "zone_A"@,
        vars.zone is Some ==> config.zone@ == (vars.zone->0)@,
        vars.shards is Some ==> joined(texts(config.shards@), ',') == (vars.shards->0)@,
        vars.shards is None ==> joined(texts(config.shards@), ',') == "shard:0"@,
        forall|i: int|
            0 <= i < config.shards@.len() ==> !(#[trigger] texts(config.shards@)[i]).contains(','),
        config.parent_shard is Some == vars.parent_shard is Some,
        vars.parent_shard is Some ==> (config.parent_shard->0)@ == (vars.parent_shard->0)@,
{
    law_written_numbers_are_read(port as nat, u16::MAX as nat, 7001);
    law_written_numbers_are_read(players as nat, usize::MAX as nat, 100);
    let names = match vars.shards {
        Some(s) => s@,
        None => "shard:0"@,
    };
    crate::gate_laws::law_join_undoes_split(names, ',');
    assert(texts(config.shards@).len() == config.shards@.len());
}

/// So is a server whose players connect to it directly.
pub proof fn law_direct_servers_are_set_up_as_the_variables_say(
    config: crate::quic_server::ServerConfig,
    id: Seq<char>,
    vars: crate::quic_server::ServerVars,
    orchestrator_port: u16,
    port: u16,
    players: u32,
)
    requires
        config.configured(id, vars, orchestrator_port),
    ensures
        config.id@ == id,
        config.ip@ == "127.0.0.1"@,
        config.orchestrator_addr == (PeerAddr::V4 { ip: 0x7f00_0001, port: orchestrator_port }),
        vars.ds_port is None ==> config.port == 7001,
        vars.ds_port is Some && (vars.ds_port->0)@ == decimal(port as nat) ==> config.port == port,
        vars.ds_port is Some && unsigned((vars.ds_port->0)@, 65535) is None ==> config.port == 7001,
        vars.ds_port is Some && unsigned((vars.ds_port->0)@, 65535) is Some ==> config.port
            == unsigned((vars.ds_port->0)@, 65535)->0,
        vars.max_players is None ==> config.max_players == 100,
        vars.max_players is Some && unsigned((vars.max_players->0)@, usize::MAX as nat) is None
            ==> config.max_players == 100,
        vars.max_players is Some && unsigned((vars.max_players->0)@, usize::MAX as nat) is Some
            ==> config.max_players == unsigned((vars.max_players->0)@, usize::MAX as nat)->0,
        vars.max_players is Some && (vars.max_players->0)@ == decimal(players as nat)
            ==> config.max_players == players,
        vars.zone is None ==> config.zone@ == "zone_A"@,
        vars.zone is Some ==> config.zone@ == (vars.zone->0)@,
{
    law_written_numbers_are_read(port as nat, u16::MAX as nat, 7001);
    law_written_numbers_are_read(players as nat, usize::MAX as nat, 100);
}

/// The number of a shard stands between the first colon of its name and the next, or the end.
pub proof fn law_shard_numbers_stand_behind_the_colon(word: Seq<char>, number: Seq<char>, tail: Seq<char>)
    requires
        !word.contains(':'),
        !number.contains(':'),
        !tail.contains(':'),
    ensures
        shard_number_of(word) is None,
        ({
            let read = unsigned(number, u32::MAX as nat);
            let name = word + seq![':'] + number;
            &&& read is None ==> shard_number_of(name) is None
            &&& read is Some ==> shard_number_of(name) == Some((read->0) as u32)
            &&& shard_number_of(name + seq![':'] + tail) == shard_number_of(name)
        }),
{
    let one = seq![word];
    let two = one.push(number);
    let three = two.push(tail);
    let name = word + seq![':'] + number;
    law_parts_stand_between_separators(one, word, ':');
    law_parts_stand_between_separators(one, number, ':');
    law_parts_stand_between_separators(two, tail, ':');
    assert(joined(one, ':') == word);
    assert(joined(two, ':') == name);
    assert(joined(three, ':') == name + seq![':'] + tail);
    assert forall|i: int| 0 <= i < three.len() implies !(#[trigger] three[i]).contains(':') by {
        assert(three[i] == word || three[i] == number || three[i] == tail);
    }
    assert forall|i: int| 0 <= i < two.len() implies !(#[trigger] two[i]).contains(':') by {
        assert(two[i] == three[i]);
    }
    law_split_undoes_join(one, ':');
    law_split_undoes_join(two, ':');
    law_split_undoes_join(three, ':');
    assert(split_on(name, ':')[1] == number);
    assert(split_on(name + seq![':'] + tail, ':')[1] == number);
}

/// Shards without a number are passed over, the others keep their order.
pub proof fn law_shard_numbers_are_read_in_order(
    some: Seq<Seq<char>>,
    others: Seq<Seq<char>>,
    name: Seq<char>,
)
    ensures
        shard_numbers_of(some + others) == shard_numbers_of(some) + shard_numbers_of(others),
        shard_number_of(name) is None ==> shard_numbers_of(seq![name]).len() == 0,
        shard_number_of(name) is Some ==> shard_numbers_of(seq![name]) == seq![
            shard_number_of(name)->0,
        ],
    decreases others.len(),
{
    reveal_with_fuel(shard_numbers_of, 2);
    assert(seq![name].drop_last() =~= Seq::empty());
    assert(Seq::<u32>::empty().push(shard_number_of(name)->0) =~= seq![shard_number_of(name)->0]);
    if others.len() > 0 {
        law_shard_numbers_are_read_in_order(some, others.drop_last(), name);
        assert((some + others).drop_last() =~= some + others.drop_last());
        assert((some + others).last() == others.last());
        assert(shard_numbers_of(some + others) =~= shard_numbers_of(some) + shard_numbers_of(
            others,
        ));
    } else {
        assert(some + others =~= some);
        assert(shard_numbers_of(some) + shard_numbers_of(others) =~= shard_numbers_of(some));
    }
}

/// A name as a topic: its bytes, as far as there is room, and zeros.
pub proof fn law_topics_hold_the_name(name: Seq<u8>, i: int)
    requires
        0 <= i < 32,
    ensures
        topic_of(name).len() == 32,
        i < name.len() ==> topic_of(name)[i] == name[i],
        i >= name.len() ==> topic_of(name)[i] == 0,
{
}

/// The topic of a name is made of the bytes that encode it.
pub proof fn law_names_become_topics(name: Seq<char>)
    ensures
        name_topic(name) == topic_of(encode_utf8(name)),
        fits_topic(name) <==> encode_utf8(name).len() <= 32,
{
}

/// The messages for several shards are those for the first of them and then those for the others;
/// for a single shard its claim comes first, and then, unless the server warms up and where the
/// name has a number, the signal that it is ready.
pub proof fn law_shards_are_registered_one_by_one(
    some: Seq<Seq<char>>,
    others: Seq<Seq<char>>,
    name: Seq<char>,
    warming_up: bool,
)
    ensures
        shard_registrations(some + others, warming_up) == shard_registrations(some, warming_up)
            + shard_registrations(others, warming_up),
        warming_up || shard_number_of(name) is None ==> shard_registrations(seq![name], warming_up)
            == seq![seq![0x06u8] + name_topic(name)],
        !warming_up && shard_number_of(name) is Some ==> shard_registrations(
            seq![name],
            warming_up,
        ) == seq![seq![0x06u8] + name_topic(name), seq![0x14u8] + le32(shard_number_of(name)->0)],
        shard_registrations(Seq::empty(), warming_up).len() == 0,
    decreases others.len(),
{
    reveal_with_fuel(shard_registrations, 2);
    assert(seq![name].drop_last() =~= Seq::empty());
    if warming_up || shard_number_of(name) is None {
        assert(shard_registrations(seq![name], warming_up) =~= seq![
            seq![0x06u8] + name_topic(name),
        ]);
    } else {
        assert(shard_registrations(seq![name], warming_up) =~= seq![
            seq![0x06u8] + name_topic(name),
            seq![0x14u8] + le32(shard_number_of(name)->0),
        ]);
    }
    let front = shard_registrations(some, warming_up);
    if others.len() > 0 {
        law_shards_are_registered_one_by_one(some, others.drop_last(), name, warming_up);
        assert((some + others).drop_last() =~= some + others.drop_last());
        assert((some + others).last() == others.last());
        assert(shard_registrations(some + others, warming_up) =~= front + shard_registrations(
            others,
            warming_up,
        ));
    } else {
        assert(some + others =~= some);
        assert(front + shard_registrations(others, warming_up) =~= front);
    }
}

/// A server runs a shard exactly where one of its names is the shard's, and its names fit where
/// every one of them does.
pub proof fn law_servers_run_what_they_name(config: ServerConfig, shard_id: u32)
    ensures
        config.runs(shard_id) <==> exists|i: int|
            0 <= i < config.shards@.len() && (#[trigger] config.shards@[i])@ == seq![
                's',
                'h',
                'a',
                'r',
                'd',
                ':',
            ] + decimal(shard_id as nat),
        config.shards_fit() <==> forall|i: int|
            0 <= i < config.shards@.len() ==> encode_utf8((#[trigger] config.shards@[i])@).len()
                <= 32,
        config.names_fit() <==> config.shards_fit() && encode_utf8(config.id@).len() <= 32 && (
        config.parent_shard is Some ==> encode_utf8((config.parent_shard->0)@).len() <= 32),
{
    let label = seq!['s', 'h', 'a', 'r', 'd', ':'] + decimal(shard_id as nat);
    let names = texts(config.shards@);
    if config.runs(shard_id) {
        let i = choose|i: int| 0 <= i < names.len() && names[i] == label;
        assert(config.shards@[i]@ == label);
    }
    if exists|i: int| 0 <= i < config.shards@.len() && (#[trigger] config.shards@[i])@ == label {
        let i = choose|i: int|
            0 <= i < config.shards@.len() && (#[trigger] config.shards@[i])@ == label;
        assert(names[i] == label);
    }
}

/// The numbers by which the fleet is kept: servers are forgotten after fifteen seconds, the fleet
/// is looked at every five, two servers are kept available from port 7001 on, and servers of new
/// shards get a port from 7100 up to 7199. Servers warm up for two seconds.
pub proof fn law_the_fleet_is_kept_by_these_numbers()
    ensures
        crate::orchestrator::TTL_SECONDS == 15,
        crate::orchestrator::SCALER_INTERVAL == 5,
        crate::orchestrator::HOT_SERVERS_MIN == 2,
        crate::orchestrator::BASE_DS_PORT == 7001,
        crate::orchestrator::FIRST_SHARD_PORT == 7100,
        crate::orchestrator::END_SHARD_PORT == 7200,
        crate::orchestrator::FALLBACK_SHARD == 0,
        crate::dedicated_server::WARMUP_MILLIS == 2000,
        crate::dedicated_server::LISTENER_ID == 0xffff_ffff,
        crate::gatekeeper::UNAUTHORIZED == 401,
{
}

proof fn lemma_claim_is_no_ready(topic: Seq<u8>, id: u32)
    ensures
        claim_message(topic) != ready_message(id),
{
    assert(claim_message(topic)[0] == 0x06);
    assert(ready_message(id)[0] == 0x14);
}

proof fn lemma_ready_messages_differ(a: u32, b: u32)
    ensures
        ready_message(a) == ready_message(b) ==> a == b,
{
    law_u32_round_trip(a, seq![0x14u8], Seq::empty());
    law_u32_round_trip(b, seq![0x14u8], Seq::empty());
    assert(ready_message(a) =~= seq![0x14u8] + le32(a) + Seq::empty());
    assert(ready_message(b) =~= seq![0x14u8] + le32(b) + Seq::empty());
}

/// A server that takes charge of its shards claims every one of them. It says that a shard is
/// ready exactly where it does not warm up and the shard's name has a number.
pub proof fn law_shards_are_claimed_and_ready(
    names: Seq<Seq<char>>,
    warming_up: bool,
    i: int,
    id: u32,
)
    requires
        0 <= i < names.len(),
    ensures
        shard_registrations(names, warming_up).contains(claim_message(name_topic(names[i]))),
        shard_registrations(names, warming_up).contains(ready_message(id)) <==> !warming_up
            && shard_numbers_of(names).contains(id),
        shard_registrations(names, warming_up).len() == names.len() + if warming_up {
            0nat
        } else {
            shard_numbers_of(names).len()
        },
{
    lemma_shards_are_claimed(names, warming_up, i);
    lemma_shards_are_ready(names, warming_up, id);
}

proof fn lemma_shards_are_claimed(names: Seq<Seq<char>>, warming_up: bool, i: int)
    requires
        0 <= i < names.len(),
    ensures
        shard_registrations(names, warming_up).contains(claim_message(name_topic(names[i]))),
    decreases names.len(),
{
    let fewer = names.drop_last();
    let before = shard_registrations(fewer, warming_up);
    let own = claim_message(name_topic(names.last()));
    let wanted = claim_message(name_topic(names[i]));
    if i < fewer.len() {
        lemma_shards_are_claimed(fewer, warming_up, i);
        assert(fewer[i] == names[i]);
    }
    lemma_push_contains(before, own, wanted);
    if let Some(id) = shard_number_of(names.last()) {
        lemma_push_contains(before.push(own), ready_message(id), wanted);
    }
}

proof fn lemma_shards_are_ready(names: Seq<Seq<char>>, warming_up: bool, id: u32)
    ensures
        shard_registrations(names, warming_up).contains(ready_message(id)) <==> !warming_up
            && shard_numbers_of(names).contains(id),
        shard_registrations(names, warming_up).len() == names.len() + if warming_up {
            0nat
        } else {
            shard_numbers_of(names).len()
        },
    decreases names.len(),
{
    if names.len() > 0 {
        let fewer = names.drop_last();
        let before = shard_registrations(fewer, warming_up);
        let own = claim_message(name_topic(names.last()));
        let wanted = ready_message(id);
        lemma_shards_are_ready(fewer, warming_up, id);
        lemma_push_contains(before, own, wanted);
        lemma_claim_is_no_ready(name_topic(names.last()), id);
        if let Some(last) = shard_number_of(names.last()) {
            lemma_push_contains(before.push(own), ready_message(last), wanted);
            lemma_ready_messages_differ(last, id);
            lemma_push_contains(shard_numbers_of(fewer), last, id);
        }
    }
}

/// With which messages a server enters the network: where it has a parent shard, it begins to
/// listen to it; it takes charge of its shards; and the last is the claim of its own name.
pub proof fn law_servers_enter_the_network(config: ServerConfig)
    ensures
        ({
            let messages = config.boot_sequence();
            let shards = shard_registrations(texts(config.shards@), config.parent_shard is Some);
            let last = messages.len() - 1;
            &&& messages[last] == seq![0x06u8] + name_topic(config.id@)
            &&& config.parent_shard is None ==> messages.drop_last() == shards
            &&& config.parent_shard is Some ==> {
                &&& messages.len() == shards.len() + 3
                &&& messages[0] == seq![0x01u8] + le32(0xffff_ffff) + name_topic(
                    (config.parent_shard->0)@,
                )
                &&& messages[1] == seq![0x05u8] + le32(0xffff_ffff)
                &&& messages.subrange(2, last) == shards
            }
        }),
{
    let messages = config.boot_sequence();
    let shards = shard_registrations(texts(config.shards@), config.parent_shard is Some);
    assert(messages.drop_last() =~= config.listening_sequence() + shards);
    if config.parent_shard is None {
        assert(config.listening_sequence() + shards =~= shards);
    } else {
        assert(messages.subrange(2, messages.len() - 1) =~= shards);
    }
}

/// There is one ready signal for each shard, in order.
pub proof fn law_each_shard_is_signalled(shards: Seq<u32>, i: int)
    requires
        0 <= i < shards.len(),
    ensures
        ready_signals(shards).len() == shards.len(),
        ready_signals(shards)[i] == seq![0x14u8] + le32(shards[i]),
{
}

/// A timer that begins is up exactly once as much time has passed as it has to wait, in however
/// many steps.
pub proof fn law_two_steps_are_one(timer: WarmupTimer, first: nat, second: nat)
    requires
        !timer.finished,
        timer.elapsed + first < timer.duration,
        timer.duration <= u128::MAX,
    ensures
        !timer.finishes(first),
        timer.after(first).finishes(second) <==> timer.elapsed + first + second >= timer.duration,
        timer.after(first).after(second) == timer.after(first + second),
        timer.after(first).duration == timer.duration,
{
}

/// A timer that is up stays as it is.
pub proof fn law_a_timer_is_up_once(timer: WarmupTimer, first: nat, second: nat)
    requires
        timer.elapsed + first >= timer.duration,
        !timer.finished,
    ensures
        timer.finishes(first),
        timer.after(first).finished,
        !timer.after(first).finishes(second),
        timer.after(first).after(second) == timer.after(first),
{
}

/// A new player stands still where it is put, under its client's number.
pub proof fn law_new_players_stand_where_they_are_put(
    player: NewPlayer,
    id: Seq<char>,
    state: PlayerState,
    authority: Authority,
)
    requires
        player.stands(id, state, authority),
    ensures
        player.player.id@ == id,
        player.x == state.x,
        player.y == state.y,
        player.input.movement_x.bits == 0,
        player.input.movement_y.bits == 0,
        player.network_id.0 == state.client_id,
        player.authority == authority,
{
}

/// Players of the server go five units a second in the direction of their movement; shadows stay.
pub proof fn law_only_owned_players_move(at: Binary32, movement: Binary32, delta: Binary32)
    ensures
        moved(at, movement, Authority::Shadow, delta) == at,
        moved(at, movement, Authority::Owned, delta) == at.sum(
            movement.product(Binary32 { bits: 0x40a0_0000 }).product(delta),
        ),
{
}

/// A broadcast holds everyone up to 255 players, and the first 255 of more.
pub proof fn law_broadcasts_hold_the_first_players(players: Seq<PlayerState>, i: int)
    requires
        0 <= i < players.len(),
    ensures
        players.len() <= 255 ==> broadcast_players(players) == players,
        players.len() > 255 ==> broadcast_players(players).len() == 255,
        i < 255 ==> broadcast_players(players)[i] == players[i],
{
}

proof fn lemma_players_bytes_len(players: Seq<PlayerState>)
    ensures
        players_bytes(players).len() == 12 * players.len(),
    decreases players.len(),
{
    if players.len() > 0 {
        lemma_players_bytes_len(players.drop_last());
    }
}

proof fn lemma_players_bytes_prefix(players: Seq<PlayerState>, i: int)
    requires
        0 <= i < players.len(),
    ensures
        players_bytes(players).len() == 12 * players.len(),
        players_bytes(players).subrange(12 * i, 12 * i + 12) == player_bytes(players[i]),
    decreases players.len(),
{
    let fewer = players.drop_last();
    lemma_players_bytes_len(players);
    lemma_players_bytes_len(fewer);
    let all = players_bytes(players);
    if i < fewer.len() {
        lemma_players_bytes_prefix(fewer, i);
        assert(all.subrange(12 * i, 12 * i + 12) =~= players_bytes(fewer).subrange(
            12 * i,
            12 * i + 12,
        ));
    } else {
        assert(all.subrange(12 * i, 12 * i + 12) =~= player_bytes(players.last()));
    }
}

/// Game data begins with the number of players, and holds twelve bytes for each: its number and
/// its coordinates.
pub proof fn law_game_data_layout(players: Seq<PlayerState>, i: int)
    requires
        0 <= i < players.len(),
        i < 255,
    ensures
        ({
            let data = game_data(players);
            &&& players.len() <= 255 ==> data[0] == players.len() && data.len() == 1 + 12
                * players.len()
            &&& players.len() > 255 ==> data[0] == 255 && data.len() == 1 + 12 * 255
            &&& data.subrange(1 + 12 * i, 13 + 12 * i) == le32(players[i].client_id) + le32(
                players[i].x.bits,
            ) + le32(players[i].y.bits)
        }),
{
    let held = broadcast_players(players);
    let data = game_data(players);
    lemma_players_bytes_prefix(held, i);
    assert(data.subrange(1 + 12 * i, 13 + 12 * i) =~= players_bytes(held).subrange(
        12 * i,
        12 * i + 12,
    ));
}

/// Game data is published once for each shard, in order.
pub proof fn law_each_shard_gets_the_game_data(names: Seq<Seq<char>>, data: Seq<u8>, i: int)
    requires
        0 <= i < names.len(),
    ensures
        publications(names, data).len() == names.len(),
        publications(names, data)[i] == publish_message(topic_of(encode_utf8(names[i])), data),
{
}

} // verus!
