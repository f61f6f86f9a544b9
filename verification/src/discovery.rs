//! How stations find each other: announces over UDP, and the stations that are connected to.

use std::collections::HashSet;

use vstd::prelude::*;

use crate::config::Config;
use crate::message::N1MM_VERSION;
use crate::number::{all_digits, digit_values, num};
use crate::text::{
    chars_of, decimal, decimal_text, is_digit, is_white_space, join, lossy, lossy_text,
    push_decimal, push_joined, split, split_of_join, split_text, starts_with, trim, trim_front,
    trimmed, views,
};

verus! {

/// The TCP port that stations connect to.
pub const TCP_PORT: u16 = 12070;

/// The UDP port that announces go to.
pub const UDP_PORT: u16 = 12070;

/// The UDP port that contacts are broadcast to.
pub const CONTACT_PORT: u16 = 12060;

// ---------------------------------------------------------------------------
// Addresses
// ---------------------------------------------------------------------------

/// A host and a port.
pub open spec fn host_and_port(host: Seq<char>, port: u16) -> Seq<char> {
    host + ":"@ + decimal(port as nat)
}

/// A host and a port.
pub fn address(host: &str, port: u16) -> (r: String)
    ensures
        r@ == host_and_port(host@, port),
{
    let mut r: String = host.to_owned();
    r.append(":");
    push_decimal(&mut r, port as u64);
    r
}

/// The broadcast address of the network with 256 addresses that `local_ip` lies in; that of
/// all networks where `local_ip` has not four parts.
pub open spec fn broadcast_of(local_ip: Seq<char>) -> Seq<char> {
    let parts = split(local_ip, '.');
    if parts.len() == 4 {
        join(seq![parts[0], parts[1], parts[2], "255"@], '.')
    } else {
        "255.255.255.255"@
    }
}

/// The broadcast address of the network that `local_ip` lies in.
pub fn subnet_broadcast(local_ip: &str) -> (r: String)
    ensures
        r@ == broadcast_of(local_ip@),
{
    let parts: Vec<String> = split_text(local_ip, '.');
    if parts.len() == 4 {
        let list: Vec<String> = vec![
            parts[0].clone(),
            parts[1].clone(),
            parts[2].clone(),
            "255".to_owned(),
        ];
        proof {
            let all = views(parts@);
            assert(views(list@) =~= seq![all[0], all[1], all[2], "255"@]);
        }
        let mut r: String = String::new();
        push_joined(&mut r, &list, '.');
        assert(r@ == join(views(list@), '.'));
        r
    } else {
        "255.255.255.255".to_owned()
    }
}

/// Where announces go to.
pub fn announce_address(cfg: &Config) -> (r: String)
    ensures
        r@ == host_and_port(cfg.broadcast@, UDP_PORT),
{
    address(cfg.broadcast.as_str(), UDP_PORT)
}

/// Where contacts are broadcast to.
pub fn contact_address(cfg: &Config) -> (r: String)
    ensures
        r@ == host_and_port(broadcast_of(cfg.local_ip@), CONTACT_PORT),
{
    let host: String = subnet_broadcast(cfg.local_ip.as_str());
    address(host.as_str(), CONTACT_PORT)
}

// ---------------------------------------------------------------------------
// Announces
// ---------------------------------------------------------------------------

/// The announce of a station: `<station>%<ip>%<port>%<version>%<station>%%`.
pub open spec fn announce(station: Seq<char>, ip: Seq<char>) -> Seq<char> {
    join(announce_fields(station, ip), '%')
}

/// The fields of an announce.
pub open spec fn announce_fields(station: Seq<char>, ip: Seq<char>) -> Seq<Seq<char>> {
    seq![
        station,
        ip,
        decimal(TCP_PORT as nat),
        N1MM_VERSION@,
        station,
        Seq::empty(),
        Seq::empty(),
    ]
}

/// The announce of this station.
pub fn udp_announce(cfg: &Config) -> (r: String)
    ensures
        r@ == announce(cfg.station@, cfg.local_ip@),
{
    let fields: Vec<String> = vec![
        cfg.station.clone(),
        cfg.local_ip.clone(),
        decimal_text(TCP_PORT as u64),
        N1MM_VERSION.to_owned(),
        cfg.station.clone(),
        String::new(),
        String::new(),
    ];
    assert(views(fields@) =~= announce_fields(cfg.station@, cfg.local_ip@));
    let mut r: String = String::new();
    push_joined(&mut r, &fields, '%');
    assert(r@ == join(views(fields@), '%'));
    r
}

/// A port: digits, with a plus sign in front or not, and no more than a port can be.
pub open spec fn port_number(s: Seq<char>) -> Option<u16> {
    let digits = if s.len() > 0 && s[0] == '+' {
        s.skip(1)
    } else {
        s
    };
    let n = num(digit_values(digits));
    if digits.len() > 0 && all_digits(digits) && n <= 0xffff {
        Some(n as u16)
    } else {
        None
    }
}

/// Reads a port.
pub fn parse_port(s: &str) -> (r: Option<u16>)
    ensures
        r == port_number(s@),
{
    let v: Vec<char> = chars_of(s);
    let from: usize = if v.len() > 0 && v[0] == '+' {
        1
    } else {
        0
    };
    let ghost digits = v@.skip(from as int);
    assert(from == 0 ==> digits == v@);
    if from == v.len() {
        return None;
    }
    let mut n: u32 = 0;
    let mut i: usize = from;
    assert(digit_values(digits.take(0)) =~= Seq::<u8>::empty());
    while i < v.len()
        invariant
            from <= i <= v@.len(),
            digits == v@.skip(from as int),
            v@ == s@,
            from == (if s@.len() > 0 && s@[0] == '+' {
                1int
            } else {
                0int
            }),
            forall|j: int| 0 <= j < i - from ==> is_digit(#[trigger] digits[j]),
            n <= 0x1_0000,
            num(digit_values(digits.take(i - from))) <= 0xffff ==> n == num(
                digit_values(digits.take(i - from)),
            ),
            num(digit_values(digits.take(i - from))) > 0xffff ==> n == 0x1_0000,
        decreases v.len() - i,
    {
        let c: char = v[i];
        assert(digits[i - from] == c);
        if c < '0' || c > '9' {
            assert(!is_digit(digits[i - from]));
            assert(from == 0 ==> digits == s@);
            return None;
        }
        proof {
            let t = digit_values(digits.take(i + 1 - from));
            assert(t.drop_last() =~= digit_values(digits.take(i - from)));
            assert(t.last() == (c as u32 - 48) as u8);
        }
        let next: u32 = n * 10 + (c as u32 - 48);
        n = if next > 0xffff {
            0x1_0000
        } else {
            next
        };
        i = i + 1;
    }
    assert(digits.take(v@.len() - from) == digits);
    if n <= 0xffff {
        Some(n as u16)
    } else {
        None
    }
}

/// Another station that announced itself: its address as it was written, and its port.
#[derive(Debug)]
pub struct Announced {
    pub ip: String,
    pub port: u16,
}

/// A station's own announce: its name is the first field.
pub open spec fn is_own(text: Seq<char>, station: Seq<char>) -> bool {
    station.push('%').is_prefix_of(text)
}

/// What an announce that came in says to a station: nothing where it is the station's own or
/// has less than three fields. A port that cannot be read is the usual one.
pub open spec fn announced(text: Seq<char>, station: Seq<char>) -> Option<(Seq<char>, u16)> {
    let parts = split(trimmed(text), '%');
    if is_own(text, station) || parts.len() < 3 {
        None
    } else {
        Some(
            (
                parts[1],
                match port_number(parts[2]) {
                    Some(port) => port,
                    None => TCP_PORT,
                },
            ),
        )
    }
}

/// What an optional announce says.
pub open spec fn announced_view(a: Option<Announced>) -> Option<(Seq<char>, u16)> {
    match a {
        Some(x) => Some((x.ip@, x.port)),
        None => None,
    }
}

/// Reads an announce.
pub fn parse_announce(text: &str, cfg: &Config) -> (r: Option<Announced>)
    ensures
        announced_view(r) == announced(text@, cfg.station@),
{
    let mut own: String = cfg.station.clone();
    own.push('%');
    if starts_with(text, own.as_str()) {
        return None;
    }
    let t: String = trim(text);
    let parts: Vec<String> = split_text(t.as_str(), '%');
    assert(views(parts@).len() == parts@.len());
    if parts.len() < 3 {
        return None;
    }
    assert(views(parts@)[1] == parts@[1]@);
    assert(views(parts@)[2] == parts@[2]@);
    let port: u16 = match parse_port(parts[2].as_str()) {
        Some(port) => port,
        None => TCP_PORT,
    };
    Some(Announced { ip: parts[1].clone(), port })
}

/// Reads a datagram with an announce.
pub fn hear_announce(datagram: &[u8], cfg: &Config) -> (r: Option<Announced>)
    ensures
        announced_view(r) == announced(lossy(datagram@), cfg.station@),
{
    let text: String = lossy_text(datagram);
    parse_announce(text.as_str(), cfg)
}

// ---------------------------------------------------------------------------
// Connected stations
// ---------------------------------------------------------------------------

/// An IP address.
#[derive(Debug, PartialEq, Eq, Structural, Clone, Copy)]
pub enum PeerIp {
    V4(u32),
    V6(u128),
}

/// The addresses that this station has an outbound connection to, or is opening one to.
pub struct ConnectedPeers {
    v4: HashSet<u32>,
    v6: HashSet<u128>,
}

impl View for ConnectedPeers {
    type V = Set<PeerIp>;

    closed spec fn view(&self) -> Set<PeerIp> {
        Set::new(
            |ip: PeerIp|
                match ip {
                    PeerIp::V4(a) => self.v4@.contains(a),
                    PeerIp::V6(a) => self.v6@.contains(a),
                },
        )
    }
}

impl ConnectedPeers {
    /// No connections.
    pub fn new() -> (r: Self)
        ensures
            r@ == Set::<PeerIp>::empty(),
    {
        broadcast use vstd::std_specs::hash::group_hash_axioms;

        let r: ConnectedPeers = ConnectedPeers { v4: HashSet::new(), v6: HashSet::new() };
        assert(r@ =~= Set::<PeerIp>::empty());
        r
    }

    /// Enters an address, and tells whether to connect to it: only where it was not there.
    pub fn claim(&mut self, ip: PeerIp) -> (r: bool)
        ensures
            r == !old(self)@.contains(ip),
            final(self)@ == old(self)@.insert(ip),
    {
        broadcast use vstd::std_specs::hash::group_hash_axioms;

        let r: bool = match ip {
            PeerIp::V4(a) => self.v4.insert(a),
            PeerIp::V6(a) => self.v6.insert(a),
        };
        assert(self@ =~= old(self)@.insert(ip));
        r
    }

    /// Takes an address out, so that it can be connected to again.
    pub fn release(&mut self, ip: PeerIp)
        ensures
            final(self)@ == old(self)@.remove(ip),
    {
        broadcast use vstd::std_specs::hash::group_hash_axioms;

        match ip {
            PeerIp::V4(a) => {
                self.v4.remove(&a);
            },
            PeerIp::V6(a) => {
                self.v6.remove(&a);
            },
        }
        assert(self@ =~= old(self)@.remove(ip));
    }
}

// ---------------------------------------------------------------------------
// Laws
// ---------------------------------------------------------------------------

/// A station passes over its own announces.
pub proof fn own_announce_is_ignored(station: Seq<char>, ip: Seq<char>)
    ensures
        announced(announce(station, ip), station) is None,
{
    let fields = announce_fields(station, ip);
    let rest = join(fields.skip(1), '%');
    reveal_strlit("%");
    assert(announce(station, ip) =~= station + "%"@ + rest);
    own_name_is_ignored(station, rest);
}

/// A station passes over everything that has its name as the first field.
pub proof fn own_name_is_ignored(station: Seq<char>, rest: Seq<char>)
    ensures
        announced(station + "%"@ + rest, station) is None,
{
    reveal_strlit("%");
    let t = station + "%"@ + rest;
    assert(station.push('%') =~= t.subrange(0, station.len() as int + 1));
}

/// White space behind an announce does not matter.
pub proof fn white_space_behind_does_not_matter(
    text: Seq<char>,
    space: Seq<char>,
    listener: Seq<char>,
)
    requires
        forall|i: int| 0 <= i < space.len() ==> is_white_space(#[trigger] space[i]),
    ensures
        announced(text + space, listener) == announced(text, listener),
{
    crate::text::white_space_around_is_cut_off(Seq::empty(), text, space);
    assert(Seq::<char>::empty() + text + space == text + space);
    let own = listener.push('%');
    let n = listener.len() as int;
    let s = text + space;
    if is_own(s, listener) {
        assert(own == s.subrange(0, n + 1));
        assert(own[n] == s[n]);
        if n >= text.len() {
            assert(is_white_space(space[n - text.len()]));
        }
        assert(own =~= text.subrange(0, n + 1));
    }
    if is_own(text, listener) {
        assert(own =~= s.subrange(0, n + 1));
    }
}

/// The announce of another station tells its address and port, whatever stands behind the port:
/// whatever version it runs, and however many fields follow.
pub proof fn announce_tells_address_and_port(
    station: Seq<char>,
    ip: Seq<char>,
    port: u16,
    rest: Seq<char>,
    listener: Seq<char>,
)
    requires
        !station.contains('%'),
        !ip.contains('%'),
        !listener.contains('%'),
        station != listener,
    ensures
        announced(
            station + "%"@ + ip + "%"@ + decimal(port as nat) + "%"@ + rest + "%"@,
            listener,
        ) == Some((ip, port)),
{
    reveal_strlit("%");
    let sep = seq!['%'];
    assert("%"@ =~= sep);
    let d = decimal(port as nat);
    let more = split(rest, '%');
    let end = seq![Seq::<char>::empty()];
    crate::text::join_of_split(rest, '%');
    crate::text::join_is_piece_by_piece(Seq::empty(), more, end, '%');
    let tail = more + end;
    assert(join(tail, '%') =~= rest + sep);
    crate::text::join_is_piece_by_piece(d, seq![d], tail, '%');
    crate::text::join_is_piece_by_piece(ip, seq![ip], seq![d] + tail, '%');
    let parts = seq![ip] + (seq![d] + tail);
    assert(join(parts, '%') =~= ip + sep + d + sep + rest + sep);
    crate::number::lemma_decimal_digits(port as nat);
    assert forall|i: int| 0 <= i < d.len() implies d[i] != '%' by {
        assert(is_digit(d[i]));
    }
    assert forall|i: int| 0 <= i < parts.len() implies !(#[trigger] parts[i]).contains('%') by {
        if 2 <= i < parts.len() - 1 {
            assert(parts[i] == more[i - 2]);
        }
    }
    ports_are_read(port as nat);
    lemma_heard(station, parts, listener);
    assert(station + sep + join(parts, '%') =~= station + "%"@ + ip + "%"@ + d + "%"@ + rest
        + "%"@);
}

/// The announce of another station tells its address and the usual port.
pub proof fn announce_is_heard(station: Seq<char>, ip: Seq<char>, listener: Seq<char>)
    requires
        !station.contains('%'),
        !ip.contains('%'),
        !listener.contains('%'),
        station != listener,
    ensures
        announced(announce(station, ip), listener) == Some((ip, TCP_PORT)),
{
    let fields = announce_fields(station, ip);
    let parts = fields.skip(1);
    let d = decimal(TCP_PORT as nat);
    crate::number::lemma_decimal_digits(TCP_PORT as nat);
    assert forall|i: int| 0 <= i < d.len() implies d[i] != '%' by {
        assert(is_digit(d[i]));
    }
    reveal_strlit("1.0.11229.0");
    assert forall|i: int| 0 <= i < parts.len() implies !(#[trigger] parts[i]).contains('%') by {
        assert(parts[i] == fields[i + 1]);
    }
    assert(fields[0] == station && fields[1] == ip && fields[2] == d);
    ports_are_read(TCP_PORT as nat);
    lemma_heard(station, parts, listener);
    assert(announce(station, ip) =~= station + seq!['%'] + join(parts, '%'));
}

/// An announce with a port that cannot be read is heard with the usual port.
pub proof fn unreadable_port_is_the_usual_one(
    station: Seq<char>,
    ip: Seq<char>,
    port: Seq<char>,
    listener: Seq<char>,
)
    requires
        !station.contains('%'),
        !ip.contains('%'),
        !port.contains('%'),
        !listener.contains('%'),
        station != listener,
        port_number(port) is None,
    ensures
        announced(station + "%"@ + ip + "%"@ + port + "%"@, listener) == Some((ip, TCP_PORT)),
{
    reveal_strlit("%");
    let sep = seq!['%'];
    assert("%"@ =~= sep);
    let end = seq![Seq::<char>::empty()];
    crate::text::join_is_piece_by_piece(Seq::empty(), seq![port], end, '%');
    crate::text::join_is_piece_by_piece(port, seq![port], end, '%');
    crate::text::join_is_piece_by_piece(ip, seq![ip], seq![port] + end, '%');
    let parts = seq![ip] + (seq![port] + end);
    assert(join(parts, '%') =~= ip + sep + port + sep);
    lemma_heard(station, parts, listener);
    assert(station + sep + join(parts, '%') =~= station + "%"@ + ip + "%"@ + port + "%"@);
}

/// What has less than two separators is no announce.
pub proof fn too_few_fields_are_no_announce(fields: Seq<Seq<char>>, listener: Seq<char>)
    requires
        0 < fields.len() < 3,
        crate::text::free_of(fields, '%'),
        trimmed(join(fields, '%')) == join(fields, '%'),
    ensures
        announced(join(fields, '%'), listener) is None,
{
    split_of_join(fields, '%');
}

/// What fields in a row say, of which the first one is the name of another station and the last
/// one is empty.
proof fn lemma_heard(station: Seq<char>, parts: Seq<Seq<char>>, listener: Seq<char>)
    requires
        !station.contains('%'),
        !listener.contains('%'),
        station != listener,
        parts.len() >= 2,
        parts.last().len() == 0,
        crate::text::free_of(parts, '%'),
    ensures
        announced(station + seq!['%'] + join(parts, '%'), listener) == Some(
            (
                parts[0],
                match port_number(parts[1]) {
                    Some(port) => port,
                    None => TCP_PORT,
                },
            ),
        ),
{
    let tail = seq!['%'] + join(parts, '%');
    let s = station + seq!['%'] + join(parts, '%');
    assert(s == station + tail);
    lemma_not_own(station, listener, tail);
    lemma_trim_front_of(station, tail);
    let front = trim_front(station);
    crate::text::lemma_join_ends(parts, '%');
    assert((front + tail).last() == '%');
    assert(trimmed(s) == front + tail);
    let cut = seq![front] + parts;
    assert(cut.skip(1) == parts);
    assert(join(cut, '%') == front.push('%') + join(parts, '%'));
    assert(front + tail == join(cut, '%'));
    lemma_trim_front_keeps(station);
    assert forall|i: int| 0 <= i < cut.len() implies !(#[trigger] cut[i]).contains('%') by {
        if i > 0 {
            assert(cut[i] == parts[i - 1]);
        }
    }
    split_of_join(cut, '%');
    assert(cut[1] == parts[0]);
    assert(cut[2] == parts[1]);
}

/// A port is read back from its digits, with or without a plus sign; a number that is too great
/// is no port.
pub proof fn ports_are_read(n: nat)
    ensures
        n <= 0xffff ==> port_number(decimal(n)) == Some(n as u16),
        n <= 0xffff ==> port_number(seq!['+'] + decimal(n)) == Some(n as u16),
        n > 0xffff ==> port_number(decimal(n)) is None,
        n > 0xffff ==> port_number(seq!['+'] + decimal(n)) is None,
{
    let d = decimal(n);
    crate::number::lemma_decimal_digits(n);
    assert(is_digit(d[0]));
    assert((seq!['+'] + d).skip(1) == d);
}

/// Digits are a port where they denote no more than a port can be, however many zeros are in front
/// of them, with or without a plus sign.
pub proof fn digits_are_a_port(d: Seq<char>)
    requires
        d.len() > 0,
        all_digits(d),
    ensures
        ({
            let n = num(digit_values(d));
            let port = if n <= 0xffff {
                Some(n as u16)
            } else {
                None
            };
            port_number(d) == port && port_number(seq!['+'] + d) == port
        }),
{
    assert(is_digit(d[0]));
    assert((seq!['+'] + d).skip(1) == d);
}

/// What is read as a port is one or more digits, with at most a plus sign in front.
pub proof fn ports_are_digits(s: Seq<char>)
    requires
        port_number(s) is Some,
    ensures
        s.len() > 0,
        is_digit(s.last()),
        s[0] == '+' || is_digit(s[0]),
        forall|i: int| 1 <= i < s.len() ==> is_digit(#[trigger] s[i]),
{
    if s[0] == '+' {
        let d = s.skip(1);
        assert forall|i: int| 1 <= i < s.len() implies is_digit(#[trigger] s[i]) by {
            assert(d[i - 1] == s[i]);
        }
    }
}

/// An address of four parts gives the one with 255 as its last part.
pub proof fn broadcast_ends_in_255(
    a: Seq<char>,
    b: Seq<char>,
    c: Seq<char>,
    d: Seq<char>,
)
    requires
        !a.contains('.') && !b.contains('.') && !c.contains('.') && !d.contains('.'),
    ensures
        broadcast_of(a + "."@ + b + "."@ + c + "."@ + d) == a + "."@ + b + "."@ + c + ".255"@,
{
    reveal_strlit(".");
    reveal_strlit(".255");
    reveal_strlit("255");
    let p = seq![a, b, c, d];
    lemma_four_joined(a, b, c, d);
    lemma_four_joined(a, b, c, "255"@);
    split_of_join(p, '.');
    assert(a + "."@ + b + "."@ + c + "."@ + "255"@ =~= a + "."@ + b + "."@ + c + ".255"@);
}

/// An address that has not four parts gives the broadcast address of all networks.
pub proof fn other_addresses_give_all_networks(parts: Seq<Seq<char>>)
    requires
        parts.len() > 0 && parts.len() != 4,
        crate::text::free_of(parts, '.'),
    ensures
        broadcast_of(join(parts, '.')) == "255.255.255.255"@,
{
    split_of_join(parts, '.');
}

/// Four parts with points between them.
proof fn lemma_four_joined(a: Seq<char>, b: Seq<char>, c: Seq<char>, d: Seq<char>)
    ensures
        join(seq![a, b, c, d], '.') == a + "."@ + b + "."@ + c + "."@ + d,
{
    reveal_strlit(".");
    let p = seq![a, b, c, d];
    assert(p.skip(1) =~= seq![b, c, d]);
    assert(p.skip(1).skip(1) =~= seq![c, d]);
    assert(p.skip(1).skip(1).skip(1) =~= seq![d]);
    reveal_with_fuel(join, 5);
    assert(join(p, '.') =~= a + "."@ + b + "."@ + c + "."@ + d);
}

/// An address is the host, a colon and the port.
pub proof fn address_tells_host_and_port(host: Seq<char>, port: u16)
    ensures
        ({
            let s = host_and_port(host, port);
            let n = host.len() as int;
            &&& s.len() > n
            &&& s.take(n) == host
            &&& s[n] == ':'
            &&& s.skip(n + 1) == decimal(port as nat)
        }),
{
    reveal_strlit(":");
    let s = host_and_port(host, port);
    let n = host.len() as int;
    assert(s.take(n) =~= host);
    assert(s.skip(n + 1) =~= decimal(port as nat));
}

/// Two announces of one version differ in nothing but the name and the address: the name stands
/// in the first and the fifth field, the address in the second.
pub proof fn announces_differ_in_name_and_address(
    station: Seq<char>,
    ip: Seq<char>,
    other: Seq<char>,
    other_ip: Seq<char>,
)
    ensures
        ({
            let a = announce_fields(station, ip);
            let b = announce_fields(other, other_ip);
            &&& a.len() == 7 && b.len() == 7
            &&& a[0] == station && a[1] == ip && a[4] == station
            &&& a[2] == b[2] && a[3] == b[3] && a[5] == b[5] && a[6] == b[6]
        }),
{
}

/// An address that was claimed cannot be claimed again before it is released; after that it
/// can, and the other addresses are as they were.
pub proof fn released_can_be_claimed(peers: Set<PeerIp>, ip: PeerIp)
    ensures
        peers.insert(ip).contains(ip),
        !peers.insert(ip).remove(ip).contains(ip),
        !peers.contains(ip) ==> peers.insert(ip).remove(ip) == peers,
{
    if !peers.contains(ip) {
        assert(peers.insert(ip).remove(ip) =~= peers);
    }
}

/// An announce whose first field is another name is not a station's own.
proof fn lemma_not_own(station: Seq<char>, listener: Seq<char>, tail: Seq<char>)
    requires
        !station.contains('%'),
        !listener.contains('%'),
        station != listener,
        tail.len() > 0,
        tail[0] == '%',
    ensures
        !is_own(station + tail, listener),
{
    let s = station + tail;
    let own = listener.push('%');
    if is_own(s, listener) {
        let n = listener.len() as int;
        let k = station.len() as int;
        assert(own == s.subrange(0, n + 1));
        assert(own[n] == s[n]);
        if n < k {
            assert(station[n] == '%');
        } else if n > k {
            assert(own[k] == s[k]);
            assert(listener[k] == '%');
        } else {
            assert forall|i: int| 0 <= i < n implies listener[i] == station[i] by {
                assert(own[i] == s[i]);
            }
            assert(station =~= listener);
        }
    }
}

/// White space is taken off the front of the first part alone, where what follows begins
/// with something visible.
proof fn lemma_trim_front_of(s: Seq<char>, tail: Seq<char>)
    requires
        tail.len() > 0,
        !is_white_space(tail[0]),
    ensures
        trim_front(s + tail) == trim_front(s) + tail,
    decreases s.len(),
{
    if s.len() == 0 {
        assert(s + tail == tail);
    } else if is_white_space(s[0]) {
        assert((s + tail).skip(1) == s.skip(1) + tail);
        lemma_trim_front_of(s.skip(1), tail);
    }
}

/// Taking white space off the front brings no separator in.
proof fn lemma_trim_front_keeps(s: Seq<char>)
    requires
        !s.contains('%'),
    ensures
        !trim_front(s).contains('%'),
    decreases s.len(),
{
    if s.len() > 0 && is_white_space(s[0]) {
        let t = s.skip(1);
        if t.contains('%') {
            let k = choose|k: int| 0 <= k < t.len() && t[k] == '%';
            assert(s[k + 1] == '%');
        }
        lemma_trim_front_keeps(t);
    }
}

/// An announce that was heard says what its parts are.
pub proof fn announce_says_its_parts(a: Option<Announced>)
    ensures
        a is None <==> announced_view(a) is None,
        a is Some ==> announced_view(a)->0 == (a->0.ip@, a->0.port),
{
}

} // verus!
