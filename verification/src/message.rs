//! Messages between stations: `DATA__00%<sender>%<command>%<fields>%~__DATA`.

use vstd::prelude::*;

use crate::clock::{
    clock_is_free_of_separators, date_text, is_moment, now_parts, now_timestamp, time_text,
    timestamp_text, Moment,
};
use crate::config::Config;
use crate::text::{
    chars_of, ends_with, free_of, join, opt_view, push_joined, same, split, split_of_join,
    split_text, starts_with, string_of, trim, trimmed, views,
};

verus! {

/// The version advertised to the other stations.
pub const N1MM_VERSION: &'static str = "1.0.11229.0";

// ---------------------------------------------------------------------------
// Frames
// ---------------------------------------------------------------------------

/// A message as it goes over the wire.
pub open spec fn framed(
    sender: Seq<char>,
    command: Seq<char>,
    fields: Seq<Seq<char>>,
) -> Seq<char> {
    "DATA__00"@ + join(
        seq![Seq::empty(), sender, command] + fields.push(Seq::empty()),
        '%',
    ) + "~__DATA"@
}

/// A message as it goes over the wire.
pub fn frame(sender: &str, command: &str, fields: Vec<String>) -> (r: String)
    ensures
        r@ == framed(sender@, command@, views(fields@)),
{
    let ghost given = views(fields@);
    let mut parts: Vec<String> = Vec::new();
    parts.push(String::new());
    parts.push(sender.to_owned());
    parts.push(command.to_owned());
    let ghost head = views(parts@);
    assert(head == seq![Seq::empty(), sender@, command@]);
    let mut rest: Vec<String> = fields;
    let ghost before = parts@;
    parts.append(&mut rest);
    assert(views(parts@) == head + given);
    parts.push(String::new());
    assert(views(parts@) == head + given.push(Seq::empty()));
    let mut r: String = "DATA__00".to_owned();
    push_joined(&mut r, &parts, '%');
    r.append("~__DATA");
    r
}

/// A message that came in.
#[derive(Debug)]
pub struct InMsg {
    pub sender: String,
    pub command: String,
    pub fields: Vec<String>,
}

/// What a message that came in says.
#[verifier::ext_equal]
pub struct Message {
    pub sender: Seq<char>,
    pub command: Seq<char>,
    pub fields: Seq<Seq<char>>,
}

impl View for InMsg {
    type V = Message;

    open spec fn view(&self) -> Message {
        Message { sender: self.sender@, command: self.command@, fields: views(self.fields@) }
    }
}

/// The message in a frame: what stands between the head and the end mark, cut at the
/// separators. What stands in front of the first separator is passed over.
pub open spec fn message_in(raw: Seq<char>) -> Option<Message> {
    let t = trimmed(raw);
    if "DATA__00"@.is_prefix_of(t) && "~__DATA"@.is_suffix_of(t) {
        let parts = split(t.subrange(8, t.len() - 7), '%');
        if parts.len() < 3 {
            None
        } else {
            Some(Message { sender: parts[1], command: parts[2], fields: parts.skip(3) })
        }
    } else {
        None
    }
}

/// The head and the end mark of a frame do not overlap.
proof fn lemma_frame_length(t: Seq<char>)
    requires
        "DATA__00"@.is_prefix_of(t),
        "~__DATA"@.is_suffix_of(t),
    ensures
        t.len() >= 15,
{
    reveal_strlit("DATA__00");
    reveal_strlit("~__DATA");
    let n = t.len() as int;
    assert(t.subrange(n - 7, n)[0] == '~');
    if n < 15 {
        assert(t.subrange(0, 8)[n - 7] == '~');
        assert("DATA__00"@[n - 7] != '~');
    }
}

/// The message in a frame.
pub fn parse_frame(raw: &str) -> (r: Option<InMsg>)
    ensures
        match message_in(raw@) {
            Some(m) => r is Some && r->0@ == m,
            None => r is None,
        },
{
    let t: String = trim(raw);
    if !starts_with(t.as_str(), "DATA__00") || !ends_with(t.as_str(), "~__DATA") {
        return None;
    }
    proof {
        lemma_frame_length(t@);
    }
    let v: Vec<char> = chars_of(t.as_str());
    let inner: String = string_of(v.as_slice(), 8, v.len() - 7);
    let mut parts: Vec<String> = split_text(inner.as_str(), '%');
    let ghost all = views(parts@);
    if parts.len() < 3 {
        return None;
    }
    let fields: Vec<String> = parts.split_off(3);
    assert(views(fields@) == all.skip(3));
    let command: String = parts[2].clone();
    let sender: String = parts[1].clone();
    assert(command@ == all[2]);
    assert(sender@ == all[1]);
    Some(InMsg { sender, command, fields })
}

/// What was framed is what is read back, with one empty field more at the end: the one
/// between the last separator and the end mark.
pub proof fn message_comes_back(
    sender: Seq<char>,
    command: Seq<char>,
    fields: Seq<Seq<char>>,
)
    requires
        !sender.contains('%'),
        !command.contains('%'),
        free_of(fields, '%'),
    ensures
        message_in(framed(sender, command, fields)) == Some(
            Message { sender, command, fields: fields.push(Seq::empty()) },
        ),
{
    reveal_strlit("DATA__00");
    reveal_strlit("~__DATA");
    let parts = seq![Seq::empty(), sender, command] + fields.push(Seq::empty());
    let inner = join(parts, '%');
    let s = framed(sender, command, fields);
    assert(free_of(parts, '%')) by {
        assert forall|i: int| 0 <= i < parts.len() implies !(#[trigger] parts[i]).contains(
            '%',
        ) by {
            if 3 <= i < parts.len() - 1 {
                assert(parts[i] == fields[i - 3]);
            }
        }
    }
    split_of_join(parts, '%');
    assert(s[0] == 'D');
    assert(s.last() == 'A');
    crate::text::lemma_trimmed_unchanged(s);
    assert(s.subrange(0, 8) == "DATA__00"@);
    assert(s.subrange(s.len() - 7, s.len() as int) == "~__DATA"@);
    assert(s.subrange(8, s.len() - 7) == inner);
    assert(parts.skip(3) == fields.push(Seq::empty()));
}

// ---------------------------------------------------------------------------
// What this station sends
// ---------------------------------------------------------------------------

/// The message that tells when the last contact was logged.
pub open spec fn last_contact(station: Seq<char>, timestamp: Seq<char>) -> Seq<char> {
    framed(station, "LASTQAT"@, seq![timestamp])
}

/// The message that asks for an echo.
pub open spec fn echo_request(station: Seq<char>, date: Seq<char>, time: Seq<char>) -> Seq<char> {
    framed(station, "ECHOREQ"@, seq![date, time])
}

/// Tells when the last contact was logged.
pub fn lastqat(cfg: &Config, timestamp: &str) -> (r: String)
    ensures
        r@ == last_contact(cfg.station@, timestamp@),
{
    let fields: Vec<String> = vec![timestamp.to_owned()];
    assert(views(fields@) == seq![timestamp@]);
    frame(cfg.station.as_str(), "LASTQAT", fields)
}

/// Tells when the last contact was logged: now.
pub fn msg_lastqat(cfg: &Config) -> (r: String)
    ensures
        exists|at: Moment|
            is_moment(at) && r@ == last_contact(cfg.station@, #[trigger] timestamp_text(at)),
{
    let timestamp: String = now_timestamp();
    lastqat(cfg, timestamp.as_str())
}

/// Asks for an echo of `date` and `time`.
pub fn echoreq(cfg: &Config, date: &str, time: &str) -> (r: String)
    ensures
        r@ == echo_request(cfg.station@, date@, time@),
{
    let fields: Vec<String> = vec![date.to_owned(), time.to_owned()];
    assert(views(fields@) == seq![date@, time@]);
    frame(cfg.station.as_str(), "ECHOREQ", fields)
}

/// Asks for an echo of the date and time that the clock shows.
pub fn msg_echoreq(cfg: &Config) -> (r: String)
    ensures
        exists|at: Moment|
            is_moment(at) && r@ == echo_request(
                cfg.station@,
                #[trigger] date_text(at),
                time_text(at),
            ),
{
    let (date, time): (String, String) = now_parts();
    echoreq(cfg, date.as_str(), time.as_str())
}

/// Echoes `date` and `time`.
pub fn msg_echo(cfg: &Config, date: &str, time: &str) -> (r: String)
    ensures
        r@ == framed(cfg.station@, "ECHO"@, seq![date@, time@]),
{
    let fields: Vec<String> = vec![date.to_owned(), time.to_owned()];
    assert(views(fields@) == seq![date@, time@]);
    frame(cfg.station.as_str(), "ECHO", fields)
}

/// Tells the callsign and the contest.
pub fn msg_contestname(cfg: &Config) -> (r: String)
    ensures
        r@ == framed(
            cfg.station@,
            "CONTESTNAME"@,
            seq![cfg.callsign@, cfg.contest@, Seq::empty()],
        ),
{
    let fields: Vec<String> = vec![cfg.callsign.clone(), cfg.contest.clone(), String::new()];
    assert(views(fields@) == seq![cfg.callsign@, cfg.contest@, Seq::empty()]);
    frame(cfg.station.as_str(), "CONTESTNAME", fields)
}

/// The fields of a status message: both frequencies in tens of hertz (14225 kHz), the
/// callsign, the category and the version.
pub open spec fn status_fields(callsign: Seq<char>) -> Seq<Seq<char>> {
    seq![
        "1422500"@,
        "1422500"@,
        "0"@,
        callsign,
        "0"@,
        "0"@,
        "SB"@,
        "MULTI-OP"@,
        "UNLIMITED"@,
        "ZB"@,
        N1MM_VERSION@,
        "0"@,
        "0"@,
        "0"@,
        "0"@,
        "0"@,
        "0"@,
    ]
}

/// Tells the status of the station.
pub fn msg_status(cfg: &Config) -> (r: String)
    ensures
        r@ == framed(cfg.station@, "STATUS"@, status_fields(cfg.callsign@)),
{
    let fields: Vec<String> = vec![
        "1422500".to_owned(),
        "1422500".to_owned(),
        "0".to_owned(),
        cfg.callsign.clone(),
        "0".to_owned(),
        "0".to_owned(),
        "SB".to_owned(),
        "MULTI-OP".to_owned(),
        "UNLIMITED".to_owned(),
        "ZB".to_owned(),
        N1MM_VERSION.to_owned(),
        "0".to_owned(),
        "0".to_owned(),
        "0".to_owned(),
        "0".to_owned(),
        "0".to_owned(),
        "0".to_owned(),
    ];
    assert(views(fields@) == status_fields(cfg.callsign@));
    frame(cfg.station.as_str(), "STATUS", fields)
}

/// The fields of a message with contact counts: the contest and 32 counts, all zero.
pub open spec fn count_fields(contest: Seq<char>) -> Seq<Seq<char>> {
    seq![contest] + Seq::new(32, |i: int| "0"@)
}

/// Tells how many contacts were logged on each band.
pub fn msg_qsonrs(cfg: &Config) -> (r: String)
    ensures
        r@ == framed(cfg.station@, "QSONRS"@, count_fields(cfg.contest@)),
{
    let mut fields: Vec<String> = vec![cfg.contest.clone()];
    assert(views(fields@) == count_fields(cfg.contest@).take(1));
    for i in 0usize..32
        invariant
            views(fields@) == count_fields(cfg.contest@).take(1 + i),
    {
        let ghost before = fields@;
        fields.push("0".to_owned());
        assert(views(fields@) == views(before).push("0"@));
        assert(count_fields(cfg.contest@).take(2 + i) == count_fields(cfg.contest@).take(
            1 + i,
        ).push("0"@));
    }
    assert(count_fields(cfg.contest@).take(33) == count_fields(cfg.contest@));
    frame(cfg.station.as_str(), "QSONRS", fields)
}

/// The two messages that open a connection: counts, and the time of the last contact.
pub fn handshake(cfg: &Config) -> (r: Vec<String>)
    ensures
        r@.len() == 2,
        r@[0]@ == framed(cfg.station@, "QSONRS"@, count_fields(cfg.contest@)),
        exists|at: Moment|
            is_moment(at) && r@[1]@ == last_contact(
                cfg.station@,
                #[trigger] timestamp_text(at),
            ),
{
    vec![msg_qsonrs(cfg), msg_lastqat(cfg)]
}

/// The four messages of each periodic tick: an echo request, the contest, the status and the
/// counts.
pub fn tick_messages(cfg: &Config) -> (r: Vec<String>)
    ensures
        r@.len() == 4,
        exists|at: Moment|
            is_moment(at) && r@[0]@ == echo_request(
                cfg.station@,
                #[trigger] date_text(at),
                time_text(at),
            ),
        r@[1]@ == framed(
            cfg.station@,
            "CONTESTNAME"@,
            seq![cfg.callsign@, cfg.contest@, Seq::empty()],
        ),
        r@[2]@ == framed(cfg.station@, "STATUS"@, status_fields(cfg.callsign@)),
        r@[3]@ == framed(cfg.station@, "QSONRS"@, count_fields(cfg.contest@)),
{
    vec![msg_echoreq(cfg), msg_contestname(cfg), msg_status(cfg), msg_qsonrs(cfg)]
}

// ---------------------------------------------------------------------------
// What this station answers
// ---------------------------------------------------------------------------

/// Field `i`, or nothing where there is none.
pub open spec fn field_or_empty(fields: Seq<Seq<char>>, i: int) -> Seq<char> {
    if i < fields.len() {
        fields[i]
    } else {
        Seq::empty()
    }
}

/// The answer of a station to a message: an echo request gets its date and time back, and
/// nothing else is answered.
pub open spec fn reply(m: Message, station: Seq<char>) -> Option<Seq<char>> {
    if m.command == "ECHOREQ"@ {
        Some(
            framed(
                station,
                "ECHO"@,
                seq![field_or_empty(m.fields, 0), field_or_empty(m.fields, 1)],
            ),
        )
    } else {
        None
    }
}

/// Processes a message that came in and gives the answer to send, if any.
pub fn handle_incoming(msg: &InMsg, cfg: &Config) -> (r: Option<String>)
    ensures
        opt_view(r) == reply(msg@, cfg.station@),
{
    if same(msg.command.as_str(), "ECHOREQ") {
        let date: String = if msg.fields.len() > 0 {
            msg.fields[0].clone()
        } else {
            String::new()
        };
        let time: String = if msg.fields.len() > 1 {
            msg.fields[1].clone()
        } else {
            String::new()
        };
        assert(date@ == field_or_empty(msg@.fields, 0));
        assert(time@ == field_or_empty(msg@.fields, 1));
        Some(msg_echo(cfg, date.as_str(), time.as_str()))
    } else {
        None
    }
}

/// Whether a command tells something that needs no answer.
pub fn is_informational(command: &str) -> (r: bool)
    ensures
        r == (command@ == "ECHO"@ || command@ == "LASTQAT"@ || command@ == "CONTESTNAME"@
            || command@ == "STATUS"@ || command@ == "QSONRS"@ || command@ == "ReserveNr"@
            || command@ == "XMIT"@),
{
    same(command, "ECHO") || same(command, "LASTQAT") || same(command, "CONTESTNAME") || same(
        command,
        "STATUS",
    ) || same(command, "QSONRS") || same(command, "ReserveNr") || same(command, "XMIT")
}

// ---------------------------------------------------------------------------
// Laws
// ---------------------------------------------------------------------------

/// A message with contact counts holds exactly 33 data fields, so that the end mark stands
/// at index 33 of what the receiver cuts.
pub proof fn counts_fill_33_fields(station: Seq<char>, contest: Seq<char>)
    requires
        !station.contains('%'),
        !contest.contains('%'),
    ensures
        count_fields(contest).len() == 33,
        message_in(framed(station, "QSONRS"@, count_fields(contest))) == Some(
            Message {
                sender: station,
                command: "QSONRS"@,
                fields: count_fields(contest).push(Seq::empty()),
            },
        ),
{
    reveal_strlit("QSONRS");
    reveal_strlit("0");
    let fields = count_fields(contest);
    assert forall|i: int| 0 <= i < fields.len() implies !(#[trigger] fields[i]).contains('%') by {
        if i > 0 {
            assert(fields[i] == "0"@);
        }
    }
    message_comes_back(station, "QSONRS"@, fields);
}

/// An echo request from one station is answered by the other with the same date and time.
pub proof fn echo_request_is_answered(
    from: Seq<char>,
    to: Seq<char>,
    date: Seq<char>,
    time: Seq<char>,
)
    requires
        !from.contains('%'),
        !date.contains('%'),
        !time.contains('%'),
    ensures
        message_in(echo_request(from, date, time)) matches Some(m) && m.sender == from
            && reply(m, to) == Some(framed(to, "ECHO"@, seq![date, time])),
{
    reveal_strlit("ECHOREQ");
    message_comes_back(from, "ECHOREQ"@, seq![date, time]);
}

/// An echo request has the date and the time as its fields.
pub proof fn echo_request_tells_date_and_time(
    station: Seq<char>,
    date: Seq<char>,
    time: Seq<char>,
)
    ensures
        echo_request(station, date, time) == framed(station, "ECHOREQ"@, seq![date, time]),
{
}

/// The echo request that a station sends at a moment is answered with that moment.
pub proof fn moment_comes_back(from: Seq<char>, to: Seq<char>, at: Moment)
    requires
        !from.contains('%'),
        is_moment(at),
    ensures
        message_in(echo_request(from, date_text(at), time_text(at))) matches Some(m) && reply(m, to)
            == Some(framed(to, "ECHO"@, seq![date_text(at), time_text(at)])),
{
    clock_is_free_of_separators(at);
    echo_request_is_answered(from, to, date_text(at), time_text(at));
}

/// No answer is ever answered.
pub proof fn no_answer_to_an_answer(raw: Seq<char>, station: Seq<char>, other: Seq<char>)
    requires
        !station.contains('%'),
    ensures
        message_in(raw) matches Some(m) ==> (reply(m, station) matches Some(answer) ==> (
        message_in(answer) matches Some(back) && back.sender == station && reply(back, other)
            is None)),
{
    if let Some(m) = message_in(raw) {
        let t = trimmed(raw);
        crate::text::join_of_split(t.subrange(8, t.len() - 7), '%');
        let parts = split(t.subrange(8, t.len() - 7), '%');
        let fields = seq![field_or_empty(m.fields, 0), field_or_empty(m.fields, 1)];
        assert forall|i: int| 0 <= i < fields.len() implies !(#[trigger] fields[i]).contains(
            '%',
        ) by {
            if i < m.fields.len() {
                assert(fields[i] == parts[i + 3]);
            }
        }
        reveal_strlit("ECHO");
        reveal_strlit("ECHOREQ");
        message_comes_back(station, "ECHO"@, fields);
    }
}

/// A message without fields is head, sender, command and end mark; a field more goes in front of
/// the end mark, with a separator behind it.
pub proof fn frames_grow_by_fields(
    sender: Seq<char>,
    command: Seq<char>,
    fields: Seq<Seq<char>>,
    field: Seq<char>,
)
    ensures
        framed(sender, command, Seq::empty()) == "DATA__00%"@ + sender + "%"@ + command
            + "%~__DATA"@,
        ({
            let s = framed(sender, command, fields);
            framed(sender, command, fields.push(field)) == s.take(s.len() - 7) + field + "%~__DATA"@
        }),
{
    reveal_strlit("DATA__00");
    reveal_strlit("DATA__00%");
    reveal_strlit("~__DATA");
    reveal_strlit("%~__DATA");
    reveal_strlit("%");
    let e = Seq::<char>::empty();
    let head = seq![e, sender, command];
    let end = seq![e];
    crate::text::join_is_piece_by_piece(e, head, end, '%');
    crate::text::join_is_piece_by_piece(e, seq![e], seq![sender, command], '%');
    crate::text::join_is_piece_by_piece(sender, seq![sender], seq![command], '%');
    crate::text::join_is_piece_by_piece(command, seq![command], end, '%');
    assert(seq![sender] + seq![command] =~= seq![sender, command]);
    assert(seq![e] + seq![sender, command] =~= head);
    let none = Seq::<Seq<char>>::empty();
    assert(head + none.push(e) =~= head + end);
    assert(framed(sender, command, none) =~= "DATA__00%"@ + sender + "%"@ + command + "%~__DATA"@);

    let all = head + fields;
    let more = seq![field, e];
    crate::text::join_is_piece_by_piece(e, all, end, '%');
    crate::text::join_is_piece_by_piece(e, all, more, '%');
    crate::text::join_is_piece_by_piece(field, seq![field], end, '%');
    assert(seq![field] + end =~= more);
    assert(head + fields.push(e) =~= all + end);
    assert(head + fields.push(field).push(e) =~= all + more);
    let s = framed(sender, command, fields);
    let x = "DATA__00"@ + join(all, '%') + seq!['%'];
    assert(s =~= x + "~__DATA"@);
    assert(s.take(s.len() - 7) =~= x);
    assert(framed(sender, command, fields.push(field)) =~= x + field + "%~__DATA"@);
}

/// What stands between the head and the end mark is cut at the separators: what is in front of
/// the first one is passed over, and sender, command and fields follow. White space around the
/// frame does not matter.
pub proof fn frames_are_cut(
    passed: Seq<char>,
    sender: Seq<char>,
    command: Seq<char>,
    fields: Seq<Seq<char>>,
    front: Seq<char>,
    back: Seq<char>,
)
    requires
        !passed.contains('%'),
        !sender.contains('%'),
        !command.contains('%'),
        free_of(fields, '%'),
        forall|i: int| 0 <= i < front.len() ==> crate::text::is_white_space(#[trigger] front[i]),
        forall|i: int| 0 <= i < back.len() ==> crate::text::is_white_space(#[trigger] back[i]),
    ensures
        message_in(
            front + ("DATA__00"@ + join(seq![passed, sender, command] + fields, '%') + "~__DATA"@)
                + back,
        ) == Some(Message { sender, command, fields }),
{
    reveal_strlit("DATA__00");
    reveal_strlit("~__DATA");
    let parts = seq![passed, sender, command] + fields;
    let inner = join(parts, '%');
    let s = "DATA__00"@ + inner + "~__DATA"@;
    crate::text::white_space_around_is_cut_off(front, s, back);
    assert forall|i: int| 0 <= i < parts.len() implies !(#[trigger] parts[i]).contains('%') by {
        if i >= 3 {
            assert(parts[i] == fields[i - 3]);
        }
    }
    split_of_join(parts, '%');
    assert(s[0] == 'D');
    assert(s.last() == 'A');
    crate::text::lemma_trimmed_unchanged(s);
    assert(s.subrange(0, 8) == "DATA__00"@);
    assert(s.subrange(s.len() - 7, s.len() as int) == "~__DATA"@);
    assert(s.subrange(8, s.len() - 7) == inner);
    assert(parts.skip(3) == fields);
}

/// What does not begin with the head or does not end in the end mark, white space around it
/// aside, is no message, and neither is what has less than two separators between them.
pub proof fn what_is_no_message(raw: Seq<char>, parts: Seq<Seq<char>>)
    requires
        0 < parts.len() < 3,
        free_of(parts, '%'),
    ensures
        !"DATA__00"@.is_prefix_of(trimmed(raw)) ==> message_in(raw) is None,
        !"~__DATA"@.is_suffix_of(trimmed(raw)) ==> message_in(raw) is None,
        message_in("DATA__00"@ + join(parts, '%') + "~__DATA"@) is None,
{
    reveal_strlit("DATA__00");
    reveal_strlit("~__DATA");
    let inner = join(parts, '%');
    let s = "DATA__00"@ + inner + "~__DATA"@;
    split_of_join(parts, '%');
    assert(s[0] == 'D');
    assert(s.last() == 'A');
    crate::text::lemma_trimmed_unchanged(s);
    assert(s.subrange(8, s.len() - 7) == inner);
}

/// An echo request, whoever sends it, is answered with an echo of its first two fields; a field
/// that is missing is echoed as an empty one. No other command is answered.
pub proof fn only_echo_requests_are_answered(m: Message, station: Seq<char>)
    requires
        !station.contains('%'),
        free_of(m.fields, '%'),
    ensures
        m.command == "ECHOREQ"@ ==> (reply(m, station) matches Some(answer) && message_in(answer)
            matches Some(back) && back.sender == station && back.command == "ECHO"@
            && back.fields.len() == 3 && back.fields[0] == (if m.fields.len() > 0 {
            m.fields[0]
        } else {
            Seq::empty()
        }) && back.fields[1] == (if m.fields.len() > 1 {
            m.fields[1]
        } else {
            Seq::empty()
        }) && back.fields[2] == Seq::<char>::empty()),
        m.command != "ECHOREQ"@ ==> reply(m, station) is None,
{
    let a = field_or_empty(m.fields, 0);
    let b = field_or_empty(m.fields, 1);
    assert(!a.contains('%') && !b.contains('%'));
    reveal_strlit("ECHO");
    message_comes_back(station, "ECHO"@, seq![a, b]);
}

/// The time of the last contact is the one field of the message that tells it.
pub proof fn last_contact_is_told(station: Seq<char>, timestamp: Seq<char>)
    requires
        !station.contains('%'),
        !timestamp.contains('%'),
    ensures
        last_contact(station, timestamp) == framed(station, "LASTQAT"@, seq![timestamp]),
        message_in(last_contact(station, timestamp)) == Some(
            Message {
                sender: station,
                command: "LASTQAT"@,
                fields: seq![timestamp, Seq::empty()],
            },
        ),
{
    reveal_strlit("LASTQAT");
    message_comes_back(station, "LASTQAT"@, seq![timestamp]);
    assert(seq![timestamp].push(Seq::empty()) =~= seq![timestamp, Seq::empty()]);
}

/// Of the 33 counts, the first is the name of the contest and every other one is zero.
pub proof fn counts_are_zero(contest: Seq<char>)
    ensures
        count_fields(contest).len() == 33,
        count_fields(contest)[0] == contest,
        forall|i: int| 1 <= i < 33 ==> #[trigger] count_fields(contest)[i] == "0"@,
{
}

/// The status of two stations differs in the callsign alone, which is the fourth of 17 fields.
pub proof fn status_differs_in_callsign(callsign: Seq<char>, other: Seq<char>)
    ensures
        status_fields(callsign).len() == 17,
        status_fields(callsign)[3] == callsign,
        status_fields(callsign) == status_fields(other).update(3, callsign),
{
    assert(status_fields(callsign) =~= status_fields(other).update(3, callsign));
}

/// A message that came in says what its parts are.
pub proof fn message_says_its_parts(m: InMsg)
    ensures
        m@.sender == m.sender@,
        m@.command == m.command@,
        m@.fields.len() == m.fields@.len(),
        forall|i: int| 0 <= i < m.fields@.len() ==> #[trigger] m@.fields[i] == m.fields@[i]@,
{
}

} // verus!
