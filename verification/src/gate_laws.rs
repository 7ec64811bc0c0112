//! Whom the gatekeeper lets in and where it sends them, and how settings are read.

use crate::client::player_label;
use crate::gatekeeper::{
    first_available,
    first_in_zone,
    is_admission,
    is_near,
    is_welcome,
    none_in_zone,
    LoginRequest,
    LoginResponse,
    ServerRecord,
};
use crate::ids::{is_simple_uuid, is_uuid};
use crate::messages::ServerInfo;
use crate::settings::{number_or, orchestrator_port_of, text_of, text_or};
use crate::text::{
    decimal,
    decimal_value,
    has_prefix,
    is_decimal,
    is_digit,
    joined,
    lemma_decimal,
    pow10,
    signed,
    split_on,
    unsigned,
};
use vstd::prelude::*;

verus! {

/// Whoever gives a name, whatever name, and the password is let in; nobody else is.
pub proof fn law_names_with_the_password_are_let_in(request: LoginRequest)
    ensures
        is_welcome(request) <==> request.username@ != Seq::<char>::empty() && request.password is Some
            && (request.password->0)@ == seq!['1', '2', '3', '4'],
{
    reveal_strlit("1234");
    assert("1234"@ =~= seq!['1', '2', '3', '4']);
    if request.username@.len() == 0 {
        assert(request.username@ =~= Seq::empty());
    }
}

/// Every name that a client plays under is let in with the password.
pub proof fn law_clients_are_let_in(request: LoginRequest, client_id: u32)
    requires
        request.username@ == player_label(client_id),
        request.password matches Some(password) && password@ == seq!['1', '2', '3', '4'],
    ensures
        is_welcome(request),
{
    assert(request.username@.len() >= 7);
    law_names_with_the_password_are_let_in(request);
}

/// A name does not matter, as long as there is one: two requests with the same password are
/// answered alike.
pub proof fn law_names_do_not_matter(a: LoginRequest, b: LoginRequest)
    requires
        a.username@.len() > 0,
        b.username@.len() > 0,
        a.password is Some == b.password is Some,
        a.password is Some ==> (a.password->0)@ == (b.password->0)@,
    ensures
        is_welcome(a) == is_welcome(b),
{
}

/// A player is told the broker that the variables give, and where they give none, port 9000 of
/// this machine.
pub proof fn law_players_are_told_the_broker(
    response: LoginResponse,
    player_id: Seq<char>,
    broker_host: Option<String>,
    broker_port: Option<String>,
    port: u16,
)
    requires
        is_admission(response, player_id, broker_host, broker_port),
    ensures
        response.player_id@ == player_id,
        response.broker.zone@ == seq!['g', 'l', 'o', 'b', 'a', 'l'],
        broker_host matches Some(host) ==> response.broker.ip@ == host@,
        broker_host is None ==> response.broker.ip@ == seq!['1', '2', '7', '.', '0', '.', '0', '.', '1'],
        broker_port is None ==> response.broker.port == 9000,
        broker_port is Some && unsigned((broker_port->0)@, 65535) is None ==> response.broker.port
            == 9000,
        broker_port is Some && unsigned((broker_port->0)@, 65535) is Some ==> response.broker.port
            == unsigned((broker_port->0)@, 65535)->0,
        broker_port is Some && (broker_port->0)@ == decimal(port as nat) ==> response.broker.port
            == port,
        broker_port is Some && !is_decimal((broker_port->0)@) && ((broker_port->0)@.len() == 0 || (
        broker_port->0)@[0] != '+') ==> response.broker.port == 9000,
{
    reveal_strlit("global");
    reveal_strlit("127.0.0.1");
    assert("global"@ =~= seq!['g', 'l', 'o', 'b', 'a', 'l']);
    assert("127.0.0.1"@ =~= seq!['1', '2', '7', '.', '0', '.', '0', '.', '1']);
    law_written_numbers_are_read(port as nat, u16::MAX as nat, 9000);
}

/// A random identifier has 36 characters: digits from `0` to `f`, hyphens behind the first 8, and
/// then behind every 4 but the last 12, a `4` behind the second hyphen, and `8`, `9`, `a` or `b`
/// behind the third. Without the hyphens it has 32.
pub proof fn law_identifiers(long: Seq<char>, short: Seq<char>, i: int)
    requires
        is_uuid(long),
        is_simple_uuid(short),
    ensures
        long.len() == 36,
        long[8] == '-' && long[13] == '-' && long[18] == '-' && long[23] == '-',
        0 <= i < 36 && i != 8 && i != 13 && i != 18 && i != 23 ==> '0' <= long[i] <= '9' || 'a'
            <= long[i] <= 'f',
        long[14] == '4',
        long[19] == '8' || long[19] == '9' || long[19] == 'a' || long[19] == 'b',
        short.len() == 32,
        0 <= i < 32 ==> '0' <= short[i] <= '9' || 'a' <= short[i] <= 'f',
        short[12] == '4',
        short[16] == '8' || short[16] == '9' || short[16] == 'a' || short[16] == 'b',
{
}

/// A text begins with another exactly where it is the other and something behind it.
pub proof fn law_prefixes(s: Seq<char>, prefix: Seq<char>)
    ensures
        has_prefix(s, prefix) <==> exists|rest: Seq<char>| s == #[trigger] (prefix + rest),
{
    if has_prefix(s, prefix) {
        let rest = s.skip(prefix.len() as int);
        assert(s =~= prefix + rest);
    }
    if exists|rest: Seq<char>| s == #[trigger] (prefix + rest) {
        let rest = choose|rest: Seq<char>| s == #[trigger] (prefix + rest);
        assert((prefix + rest).take(prefix.len() as int) =~= prefix);
    }
}

/// The networks nearby are those whose addresses begin with 192, 10 or 127.
pub proof fn law_networks_nearby(ip: Seq<char>, rest: Seq<char>)
    ensures
        is_near(seq!['1', '9', '2', '.'] + rest),
        is_near(seq!['1', '0', '.'] + rest),
        is_near(seq!['1', '2', '7', '.'] + rest),
        is_near(ip) ==> ip.len() >= 3 && ip[0] == '1' && ((ip[1] == '0' && ip[2] == '.') || (
        ip.len() >= 4 && ip[1] == '9' && ip[2] == '2' && ip[3] == '.') || (ip.len() >= 4 && ip[1]
            == '2' && ip[2] == '7' && ip[3] == '.')),
{
    reveal_strlit("192.");
    reveal_strlit("10.");
    reveal_strlit("127.");
    let a = seq!['1', '9', '2', '.'];
    let b = seq!['1', '0', '.'];
    let c = seq!['1', '2', '7', '.'];
    assert("192."@ =~= a);
    assert("10."@ =~= b);
    assert("127."@ =~= c);
    law_prefixes(a + rest, a);
    law_prefixes(b + rest, b);
    law_prefixes(c + rest, c);
    if has_prefix(ip, a) {
        assert(ip.take(4)[0] == ip[0] && ip.take(4)[1] == ip[1] && ip.take(4)[2] == ip[2]
            && ip.take(4)[3] == ip[3]);
    }
    if has_prefix(ip, b) {
        assert(ip.take(3)[0] == ip[0] && ip.take(3)[1] == ip[1] && ip.take(3)[2] == ip[2]);
    }
    if has_prefix(ip, c) {
        assert(ip.take(4)[0] == ip[0] && ip.take(4)[1] == ip[1] && ip.take(4)[2] == ip[2]
            && ip.take(4)[3] == ip[3]);
    }
}

/// A server on record takes players exactly where its address is complete and its status, if it
/// has one, is `available`.
pub proof fn law_servers_on_record(record: ServerRecord, zone: Seq<char>, info: ServerInfo)
    ensures
        record.available() <==> record.ip is Some && record.port is Some && record.zone is Some && (
        record.status is None || (record.status->0)@ == seq![
            'a',
            'v',
            'a',
            'i',
            'l',
            'a',
            'b',
            'l',
            'e',
        ]),
        record.in_zone(zone) <==> record.zone is Some && (record.zone->0)@ == zone,
        record.described_by(info) <==> record.ip is Some && (record.ip->0)@ == info.ip@
            && record.port == Some(info.port) && record.zone is Some && (record.zone->0)@
            == info.zone@,
{
    reveal_strlit("available");
    assert("available"@ =~= seq!['a', 'v', 'a', 'i', 'l', 'a', 'b', 'l', 'e']);
}

/// The first server in a zone is one that takes players there, and none before it does; there is
/// one exactly where some server does. The same holds of the first server that takes players.
pub proof fn law_the_first_server_is_taken(records: Seq<ServerRecord>, zone: Seq<char>, k: int) -> (i:
    (int, int))
    requires
        0 <= k < records.len(),
        records[k].available(),
    ensures
        first_available(records, records.len() as int, i.0),
        i.0 <= k,
        records[i.0].available(),
        forall|j: int| 0 <= j < i.0 ==> !(#[trigger] records[j]).available(),
        records[k].in_zone(zone) ==> {
            &&& first_in_zone(records, records.len() as int, zone, i.1)
            &&& !none_in_zone(records, records.len() as int, zone)
            &&& i.1 <= k
            &&& records[i.1].available() && records[i.1].in_zone(zone)
            &&& forall|j: int|
                0 <= j < i.1 ==> !((#[trigger] records[j]).available() && records[j].in_zone(zone))
        },
    decreases k,
{
    let first = if exists|j: int| 0 <= j < k && (#[trigger] records[j]).available() {
        let j = choose|j: int| 0 <= j < k && (#[trigger] records[j]).available();
        law_the_first_server_is_taken(records, zone, j).0
    } else {
        k
    };
    let near = if records[k].in_zone(zone) && exists|j: int|
        0 <= j < k && (#[trigger] records[j]).available() && records[j].in_zone(zone) {
        let j = choose|j: int|
            0 <= j < k && (#[trigger] records[j]).available() && records[j].in_zone(zone);
        law_the_first_server_is_taken(records, zone, j).1
    } else {
        k
    };
    (first, near)
}

/// A server that is called the first is the first.
pub proof fn law_no_server_comes_before_the_first(
    records: Seq<ServerRecord>,
    zone: Seq<char>,
    end: int,
    i: int,
    j: int,
)
    ensures
        first_in_zone(records, end, zone, i) ==> 0 <= i < end && records[i].available()
            && records[i].in_zone(zone),
        first_in_zone(records, end, zone, i) && 0 <= j < i ==> !(records[j].available()
            && records[j].in_zone(zone)),
        first_available(records, end, i) ==> 0 <= i < end && records[i].available(),
        first_available(records, end, i) && 0 <= j < i ==> !records[j].available(),
        none_in_zone(records, end, zone) && 0 <= j < end ==> !(records[j].available()
            && records[j].in_zone(zone)),
{
}

/// A number is written with the digits it has, and no zero before them.
pub proof fn law_numbers_are_written_in_full(n: nat)
    ensures
        decimal_value(decimal(n)) == n,
        decimal(n).len() > 0,
        n > 0 ==> decimal(n)[0] != '0',
        n == 0 ==> decimal(n) == seq!['0'],
        forall|i: int| 0 <= i < decimal(n).len() ==> '0' <= #[trigger] decimal(n)[i] <= '9',
    decreases n,
{
    let len = lemma_pow10_exceeds(n);
    lemma_decimal(n, pow10(len), len);
    let digits = decimal(n);
    assert forall|i: int| 0 <= i < digits.len() implies '0' <= #[trigger] digits[i] <= '9' by {
        assert(48 <= digits[i] as int <= 57);
    }
    if n >= 10 {
        law_numbers_are_written_in_full(n / 10);
    }
}

/// One more digit makes a number ten times as large, and adds the digit.
pub proof fn law_digits_count_tenfold(digits: Seq<char>, c: char)
    requires
        is_digit(c),
    ensures
        decimal_value(Seq::<char>::empty()) == 0,
        decimal_value(digits.push(c)) == 10 * decimal_value(digits) + (c as int - 48),
        is_digit(c) <==> '0' <= c <= '9',
{
    assert(digits.push(c).drop_last() =~= digits);
}

/// What a text of digits is worth is read from it, with a plus sign and without, unless it is more
/// than the limit.
pub proof fn law_digits_are_read(digits: Seq<char>, max: nat)
    requires
        digits.len() > 0,
        forall|i: int| 0 <= i < digits.len() ==> '0' <= #[trigger] digits[i] <= '9',
    ensures
        decimal_value(digits) <= max ==> unsigned(digits, max) == Some(decimal_value(digits)),
        decimal_value(digits) <= max ==> unsigned(seq!['+'] + digits, max) == Some(
            decimal_value(digits),
        ),
        decimal_value(digits) > max ==> unsigned(digits, max) is None,
        decimal_value(digits) > max ==> unsigned(seq!['+'] + digits, max) is None,
        decimal_value(digits) <= 0x7fff_ffff ==> signed(digits) == Some(decimal_value(digits) as int),
        signed(seq!['+'] + digits) == signed(digits),
        decimal_value(digits) <= 0x8000_0000 ==> signed(seq!['-'] + digits) == Some(
            -(decimal_value(digits) as int),
        ),
        decimal_value(digits) > 0x7fff_ffff ==> signed(digits) is None,
        decimal_value(digits) > 0x8000_0000 ==> signed(seq!['-'] + digits) is None,
{
    assert(digits[0] != '+' && digits[0] != '-');
    assert((seq!['+'] + digits).skip(1) =~= digits);
    assert((seq!['-'] + digits).skip(1) =~= digits);
    assert forall|i: int| 0 <= i < digits.len() implies is_digit(#[trigger] digits[i]) by {}
    assert(is_decimal(digits));
}

/// A text with anything but digits in it, behind a sign, holds no number; nor does an empty one.
pub proof fn law_other_texts_hold_no_number(s: Seq<char>, max: nat, i: int)
    requires
        1 <= i < s.len(),
        !('0' <= s[i] <= '9'),
    ensures
        unsigned(s, max) is None,
        signed(s) is None,
        unsigned(Seq::empty(), max) is None,
        signed(Seq::empty()) is None,
        unsigned(seq!['+'], max) is None,
        signed(seq!['+']) is None,
        signed(seq!['-']) is None,
{
    assert(seq!['+'].skip(1) =~= Seq::empty());
    assert(seq!['-'].skip(1) =~= Seq::empty());
    assert(s.skip(1)[i - 1] == s[i]);
    assert(!is_digit(s[i]));
    assert(!is_decimal(s.skip(1)));
    assert(!is_decimal(s));
}

/// The first character of a text with a number is a digit or a sign.
pub proof fn law_numbers_begin_with_a_digit_or_a_sign(s: Seq<char>, max: nat)
    requires
        s.len() > 0,
    ensures
        unsigned(s, max) is Some ==> s[0] == '+' || '0' <= s[0] <= '9',
        signed(s) is Some ==> s[0] == '+' || s[0] == '-' || '0' <= s[0] <= '9',
{
    if is_decimal(s) {
        assert(is_digit(s[0]));
    }
}

proof fn lemma_pow10_exceeds(n: nat) -> (len: nat)
    ensures
        len >= 1,
        n < pow10(len),
    decreases n,
{
    if n < 10 {
        reveal_with_fuel(pow10, 2);
        1
    } else {
        let fewer = lemma_pow10_exceeds(n / 10);
        fewer + 1
    }
}

/// A number that was written in decimal notation is read as it was, unless it is more than the
/// limit.
pub proof fn law_written_numbers_are_read(n: nat, max: nat, default: nat)
    ensures
        n <= max ==> number_or(Some(decimal(n)), max, default) == n,
        n > max ==> number_or(Some(decimal(n)), max, default) == default,
        number_or(None, max, default) == default,
{
    let len = lemma_pow10_exceeds(n);
    lemma_decimal(n, pow10(len), len);
    let digits = decimal(n);
    assert forall|i: int| 0 <= i < digits.len() implies '0' <= #[trigger] digits[i] <= '9' by {
        assert(48 <= digits[i] as int <= 57);
    }
    law_digits_are_read(digits, max);
}

/// A setting that holds no number falls back to its default, and a text that is missing to its.
pub proof fn law_settings_fall_back(var: Option<String>, max: nat, default: nat, text: Seq<char>)
    ensures
        text_of(var) is None <==> var is None,
        var matches Some(s) ==> text_of(var) == Some(s@) && text_or(text_of(var), text) == s@,
        var is None ==> text_or(text_of(var), text) == text,
        var is Some && unsigned((var->0)@, max) is None ==> number_or(text_of(var), max, default)
            == default,
        var is Some && unsigned((var->0)@, max) is Some ==> number_or(text_of(var), max, default)
            == unsigned((var->0)@, max)->0,
        var is None ==> orchestrator_port_of(text_of(var)) == 8000,
        var is Some && signed((var->0)@) is None ==> orchestrator_port_of(text_of(var)) == 8000,
        var is Some && signed((var->0)@) is Some ==> orchestrator_port_of(text_of(var)) == signed(
            (var->0)@,
        )->0,
{
}

/// One more part stands behind a separator; a single part stands alone.
pub proof fn law_parts_stand_between_separators(
    parts: Seq<Seq<char>>,
    part: Seq<char>,
    sep: char,
)
    ensures
        joined(seq![part], sep) == part,
        parts.len() > 0 ==> joined(parts.push(part), sep) == joined(parts, sep) + seq![sep] + part,
{
    if parts.len() > 0 {
        assert(parts.push(part).drop_last() =~= parts);
        assert(joined(parts, sep).push(sep) + part =~= joined(parts, sep) + seq![sep] + part);
    }
}

/// The parts of a text hold no separator, and joined again they are the text.
pub proof fn law_join_undoes_split(s: Seq<char>, sep: char)
    ensures
        split_on(s, sep).len() > 0,
        forall|i: int|
            0 <= i < split_on(s, sep).len() ==> !(#[trigger] split_on(s, sep)[i]).contains(sep),
        joined(split_on(s, sep), sep) == s,
    decreases s.len(),
{
    let parts = split_on(s, sep);
    if s.len() == 0 {
        assert(joined(parts, sep) =~= s);
    } else {
        let fewer = s.drop_last();
        let before = split_on(fewer, sep);
        law_join_undoes_split(fewer, sep);
        assert(s =~= fewer.push(s.last()));
        if s.last() == sep {
            assert(parts.drop_last() =~= before);
            assert(joined(parts, sep) =~= fewer.push(sep) + Seq::empty());
            assert forall|i: int| 0 <= i < parts.len() implies !(#[trigger] parts[i]).contains(
                sep,
            ) by {
                if i < before.len() {
                    assert(parts[i] == before[i]);
                }
            }
        } else {
            let last = before.last().push(s.last());
            assert(parts.drop_last() =~= before.drop_last());
            assert(parts.last() == last);
            assert(!last.contains(sep)) by {
                assert(before.last() == before[before.len() - 1]);
                if last.contains(sep) {
                    let k = choose|k: int| 0 <= k < last.len() && last[k] == sep;
                    if k < before.last().len() {
                        assert(before.last()[k] == sep);
                        assert(before.last().contains(sep));
                    }
                }
            }
            assert forall|i: int| 0 <= i < parts.len() implies !(#[trigger] parts[i]).contains(
                sep,
            ) by {
                if i < before.len() - 1 {
                    assert(parts[i] == before[i]);
                }
            }
            if before.len() == 1 {
                assert(joined(before, sep) == before[0]);
                assert(joined(parts, sep) == parts[0]);
            } else {
                let front = joined(before.drop_last(), sep).push(sep);
                assert(joined(before, sep) == front + before.last());
                assert(joined(parts, sep) == front + last);
                assert(front + last =~= (front + before.last()).push(s.last()));
            }
        }
    }
}

} // verus!
