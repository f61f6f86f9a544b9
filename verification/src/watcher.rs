//! Which contacts of the database still have to be sent to the other stations, and how.

use vstd::prelude::*;

use crate::clock::unix_time;
use crate::config::Config;
use crate::contact::{
    as_received, contact_comes_back, contact_in_fields, msg_qso_contact, qso_fields, sendable,
    Contact, DbContact, Logged,
};
use crate::message::{framed, message_in};
use crate::store::{
    after_changes, entered, no_second_row, stamped, stamped_is_counted, Change, Stored,
};
use crate::text::{hex, hex_char, is_white_space, push_hex, trimmed};
use crate::xml::{build_contactinfo_xml, contact_document};

verus! {

// ---------------------------------------------------------------------------
// Identities
// ---------------------------------------------------------------------------

/// The 64 bits of `n` as a number that is not negative.
pub open spec fn as_unsigned(n: int) -> nat {
    if n < 0 {
        (n + 0x1_0000_0000_0000_0000) as nat
    } else {
        n as nat
    }
}

/// The identity of a contact that is sent at a time: both in hexadecimal, 16 digits each.
pub open spec fn identity(time: int, id: int) -> Seq<char> {
    hex(as_unsigned(time), 16) + hex(as_unsigned(id), 16)
}

/// The identity of a contact that is sent at a time.
pub fn n1mm_id_at(time: i64, id: i64) -> (r: String)
    ensures
        r@ == identity(time as int, id as int),
{
    let t: u64 = unsigned(time);
    let i: u64 = unsigned(id);
    let mut r: String = String::new();
    push_hex(&mut r, t, 16);
    push_hex(&mut r, i, 16);
    assert(r@ =~= identity(time as int, id as int));
    r
}

/// The 64 bits of `n` as a number that is not negative.
fn unsigned(n: i64) -> (r: u64)
    ensures
        r == as_unsigned(n as int),
{
    if n < 0 {
        ((n as i128) + 0x1_0000_0000_0000_0000) as u64
    } else {
        n as u64
    }
}

// ---------------------------------------------------------------------------
// The watcher
// ---------------------------------------------------------------------------

/// What goes out for a contact.
#[derive(Debug)]
pub struct Outgoing {
    /// The identity that the contact is stamped with.
    pub n1mm_id: String,
    /// The message for each connected station.
    pub qso: String,
    /// The datagram for the network.
    pub xml: String,
}

/// What goes out for a contact at a time.
pub open spec fn goes_out(o: Outgoing, cfg: Config, c: Logged, time: int) -> bool {
    let id = identity(time, c.id);
    &&& o.n1mm_id@ == id
    &&& o.qso@ == framed(
        cfg.station@,
        "QSO"@,
        qso_fields(cfg.station@, cfg.callsign@, cfg.contest@, c, id),
    )
    &&& o.xml@ == contact_document(cfg.station@, cfg.callsign@, cfg.contest@, c, id)
}

/// The greater of two numbers.
pub open spec fn greater(a: int, b: int) -> int {
    if a < b {
        b
    } else {
        a
    }
}

/// How far the contacts of the database have been sent.
#[derive(Debug)]
pub struct Watcher {
    last_id: i64,
}

impl View for Watcher {
    type V = int;

    /// The number up to which contacts are not asked for any more.
    closed spec fn view(&self) -> int {
        self.last_id as int
    }
}

impl Watcher {
    /// Starts behind the last contact in the database: only contacts that are logged from now
    /// on are sent.
    pub fn new(last: i64) -> (r: Self)
        ensures
            r@ == last,
    {
        Watcher { last_id: last }
    }

    /// The number behind which contacts are asked for.
    pub fn since(&self) -> (r: i64)
        ensures
            r == self@,
    {
        self.last_id
    }

    /// Takes on a contact at a time, and gives what goes out for it.
    pub fn send_at(&mut self, cfg: &Config, c: &DbContact, time: i64) -> (r: Outgoing)
        ensures
            final(self)@ == greater(old(self)@, c.id as int),
            goes_out(r, *cfg, c@, time as int),
    {
        if self.last_id < c.id {
            self.last_id = c.id;
        }
        let n1mm_id: String = n1mm_id_at(time, c.id);
        let qso: String = msg_qso_contact(cfg, c, n1mm_id.as_str());
        let xml: String = build_contactinfo_xml(cfg, c, n1mm_id.as_str());
        Outgoing { n1mm_id, qso, xml }
    }

    /// Takes on a contact now, and gives what goes out for it.
    pub fn send(&mut self, cfg: &Config, c: &DbContact) -> (r: Outgoing)
        ensures
            final(self)@ == greater(old(self)@, c.id as int),
            exists|time: int| 0 <= time <= i64::MAX && #[trigger] goes_out(r, *cfg, c@, time),
    {
        let time: i64 = unix_time();
        self.send_at(cfg, c, time)
    }
}

// ---------------------------------------------------------------------------
// Laws
// ---------------------------------------------------------------------------

/// How far the contacts have been sent after contacts with these numbers were.
pub open spec fn after_sending(last: int, ids: Seq<int>) -> int
    decreases ids.len(),
{
    if ids.len() == 0 {
        last
    } else {
        greater(after_sending(last, ids.drop_last()), ids.last())
    }
}

/// No contact is asked for again: after a round, the watcher stands at the greatest number
/// that it had or sent, so that every contact of the round is behind it.
pub proof fn sent_contacts_are_behind(last: int, ids: Seq<int>)
    ensures
        last <= after_sending(last, ids),
        forall|i: int| 0 <= i < ids.len() ==> #[trigger] ids[i] <= after_sending(last, ids),
        after_sending(last, ids) == last || ids.contains(after_sending(last, ids)),
    decreases ids.len(),
{
    if ids.len() > 0 {
        let front = ids.drop_last();
        sent_contacts_are_behind(last, front);
        assert forall|i: int| 0 <= i < ids.len() implies #[trigger] ids[i] <= after_sending(
            last,
            ids,
        ) by {
            if i < front.len() {
                assert(front[i] == ids[i]);
            }
        }
        let m = after_sending(last, front);
        if front.contains(m) {
            let k = choose|k: int| 0 <= k < front.len() && front[k] == m;
            assert(ids[k] == m);
        }
        assert(ids[ids.len() - 1] == ids.last());
    }
}

/// Rows that the database gives for a number: those behind it that have no identity, by
/// ascending number.
pub open spec fn is_answer(rows: Seq<Stored>, since: int) -> bool {
    &&& forall|i: int|
        0 <= i < rows.len() ==> since < (#[trigger] rows[i]).id && rows[i].n1mm_id is None
    &&& forall|i: int, j: int|
        0 <= i < j < rows.len() ==> (#[trigger] rows[i]).id < (#[trigger] rows[j]).id
}

/// Where the watcher stands after it asked several times and sent all rows that it got. A
/// failed question gives no rows.
pub open spec fn since_after(last: int, answers: Seq<Seq<Stored>>) -> int
    decreases answers.len(),
{
    if answers.len() == 0 {
        last
    } else {
        after_sending(
            since_after(last, answers.drop_last()),
            answers.last().map_values(|row: Stored| row.id),
        )
    }
}

/// All rows that were sent, in the order in which they were.
pub open spec fn rows_sent(answers: Seq<Seq<Stored>>) -> Seq<Stored>
    decreases answers.len(),
{
    if answers.len() == 0 {
        Seq::empty()
    } else {
        rows_sent(answers.drop_last()) + answers.last()
    }
}

/// Each question was asked for what is behind the number where the watcher stood.
pub open spec fn are_answers(last: int, answers: Seq<Seq<Stored>>) -> bool
    decreases answers.len(),
{
    answers.len() == 0 || (are_answers(last, answers.drop_last()) && is_answer(
        answers.last(),
        since_after(last, answers.drop_last()),
    ))
}

/// In one run of the watcher the numbers of the rows that are sent strictly increase, so that
/// no row is sent twice, whether or not it was stamped. All of them are behind where the
/// watcher started, none of them had an identity, and where the watcher stands now is not
/// before any of them.
pub proof fn rows_are_sent_once(last: int, answers: Seq<Seq<Stored>>)
    requires
        are_answers(last, answers),
    ensures
        ({
            let rows = rows_sent(answers);
            &&& last <= since_after(last, answers)
            &&& forall|i: int|
                0 <= i < rows.len() ==> last < (#[trigger] rows[i]).id <= since_after(last, answers)
                    && rows[i].n1mm_id is None
            &&& forall|i: int, j: int|
                0 <= i < j < rows.len() ==> (#[trigger] rows[i]).id < (#[trigger] rows[j]).id
        }),
    decreases answers.len(),
{
    if answers.len() > 0 {
        let front = answers.drop_last();
        rows_are_sent_once(last, front);
        let since = since_after(last, front);
        let ids = answers.last().map_values(|row: Stored| row.id);
        sent_contacts_are_behind(since, ids);
        let before = rows_sent(front);
        let rows = rows_sent(answers);
        let n = before.len() as int;
        assert forall|i: int| 0 <= i < rows.len() implies last < (#[trigger] rows[i]).id
            <= since_after(last, answers) && rows[i].n1mm_id is None by {
            if i < n {
                assert(rows[i] == before[i]);
            } else {
                assert(rows[i] == answers.last()[i - n]);
                assert(ids[i - n] == rows[i].id);
            }
        }
        assert forall|i: int, j: int| 0 <= i < j < rows.len() implies (#[trigger] rows[i]).id < (
        #[trigger] rows[j]).id by {
            if j < n {
                assert(rows[i] == before[i] && rows[j] == before[j]);
            } else if i < n {
                assert(rows[i] == before[i] && rows[j] == answers.last()[j - n]);
            } else {
                assert(rows[i] == answers.last()[i - n] && rows[j] == answers.last()[j - n]);
            }
        }
    }
}

/// Where the watcher stands never goes back, and a question that failed leaves it.
pub proof fn watcher_never_goes_back(last: int, answers: Seq<Seq<Stored>>, rows: Seq<Stored>)
    ensures
        since_after(last, answers) <= since_after(last, answers.push(rows)),
        rows.len() == 0 ==> since_after(last, answers.push(rows)) == since_after(last, answers),
        forall|i: int|
            0 <= i < rows.len() ==> (#[trigger] rows[i]).id <= since_after(
                last,
                answers.push(rows),
            ),
{
    let ids = rows.map_values(|row: Stored| row.id);
    assert(answers.push(rows).drop_last() == answers);
    sent_contacts_are_behind(since_after(last, answers), ids);
    assert forall|i: int| 0 <= i < rows.len() implies (#[trigger] rows[i]).id <= since_after(
        last,
        answers.push(rows),
    ) by {
        assert(ids[i] == rows[i].id);
    }
}

/// An identity is made of 32 hexadecimal digits.
pub proof fn identity_is_32_digits(time: int, id: int)
    ensures
        identity(time, id).len() == 32,
        forall|i: int|
            0 <= i < 32 ==> exists|d: nat| d < 16 && #[trigger] identity(time, id)[i] == hex_char(d),
{
    let a = as_unsigned(time);
    let b = as_unsigned(id);
    lemma_hex_digits(a, 16);
    lemma_hex_digits(b, 16);
    assert forall|i: int| 0 <= i < 32 implies exists|d: nat|
        d < 16 && #[trigger] identity(time, id)[i] == hex_char(d) by {
        if i < 16 {
            assert(identity(time, id)[i] == hex(a, 16)[i]);
        } else {
            assert(identity(time, id)[i] == hex(b, 16)[i - 16]);
        }
    }
}

/// Two contacts never get the same identity, nor does one contact at two times.
pub proof fn identities_differ(time: i64, id: i64, other_time: i64, other_id: i64)
    requires
        identity(time as int, id as int) == identity(other_time as int, other_id as int),
    ensures
        time == other_time,
        id == other_id,
{
    let a = as_unsigned(time as int);
    let b = as_unsigned(id as int);
    let x = as_unsigned(other_time as int);
    let y = as_unsigned(other_id as int);
    lemma_hex_digits(a, 16);
    lemma_hex_digits(b, 16);
    lemma_hex_digits(x, 16);
    lemma_hex_digits(y, 16);
    let s = identity(time as int, id as int);
    assert(s.take(16) == hex(a, 16));
    assert(s.take(16) == hex(x, 16));
    assert(s.skip(16) == hex(b, 16));
    assert(s.skip(16) == hex(y, 16));
    vstd::arithmetic::power2::lemma2_to64();
    lemma_hex_tells(a, x, 16);
    lemma_hex_tells(b, y, 16);
}

/// The message that sends a contact gives another station that contact, under the identity
/// that the contact is stamped with: when it comes back, it is known as a duplicate.
pub proof fn sent_contact_is_received(o: Outgoing, cfg: Config, c: Logged, time: int)
    requires
        goes_out(o, cfg, c, time),
        !cfg.station@.contains('%'),
        !cfg.callsign@.contains('%'),
        !cfg.contest@.contains('%'),
        sendable(c),
    ensures
        message_in(o.qso@) matches Some(m) && m.sender == cfg.station@ && m.command == "QSO"@
            && contact_in_fields(m.fields) == (if trimmed(c.call).len() == 0 {
            None
        } else {
            Some(as_received(c, o.n1mm_id@))
        }),
        as_received(c, o.n1mm_id@).n1mm_id == o.n1mm_id@,
{
    let id = identity(time, c.id);
    lemma_identity_is_trimmed(time, c.id);
    contact_comes_back(cfg.station@, cfg.callsign@, cfg.contest@, c, id);
}

/// A contact that was sent and stamped is not entered again when it comes back, whatever else
/// happened to the table since: `k` is the place of its row, and `echo` what another station
/// makes of it.
pub proof fn echo_is_not_entered(
    o: Outgoing,
    cfg: Config,
    c: Logged,
    time: int,
    table: Seq<Stored>,
    k: int,
    changes: Seq<Change>,
    echo: Contact,
    id: int,
)
    requires
        goes_out(o, cfg, c, time),
        0 <= k < table.len(),
        table[k] == (Stored { id: c.id, n1mm_id: None }),
        echo == as_received(c, o.n1mm_id@),
    ensures
        ({
            let now = after_changes(stamped(table, c.id, o.n1mm_id@), changes);
            entered(now, id, echo.n1mm_id) == now
        }),
{
    lemma_identity_is_trimmed(time, c.id);
    stamped_is_counted(table, k, o.n1mm_id@);
    no_second_row(stamped(table, c.id, o.n1mm_id@), changes, id, o.n1mm_id@);
}

/// An identity holds neither separators nor white space.
proof fn lemma_identity_is_trimmed(time: int, id: int)
    ensures
        !identity(time, id).contains('%'),
        trimmed(identity(time, id)) == identity(time, id),
        identity(time, id).len() == 32,
{
    let s = identity(time, id);
    identity_is_32_digits(time, id);
    assert forall|i: int| 0 <= i < s.len() implies #[trigger] s[i] != '%' && !is_white_space(
        s[i],
    ) by {
        let d = choose|d: nat| d < 16 && s[i] == hex_char(d);
        assert(s[i] == hex_char(d));
    }
    assert(!is_white_space(s[0]) && !is_white_space(s[31]));
    crate::text::lemma_trimmed_unchanged(s);
}

/// The number that hexadecimal digits denote.
pub open spec fn hex_value(s: Seq<char>) -> nat
    decreases s.len(),
{
    if s.len() == 0 {
        0
    } else {
        let c = s.last();
        let digit = if '0' <= c <= '9' {
            (c as u32 - 48) as nat
        } else {
            (c as u32 - 87) as nat
        };
        hex_value(s.drop_last()) * 16 + digit
    }
}

/// The first half of an identity denotes the time, and the second half the number of the
/// contact; what is below zero is denoted by its 64 bits.
pub proof fn identity_tells_time_and_number(time: i64, id: i64)
    ensures
        ({
            let s = identity(time as int, id as int);
            &&& s.len() == 32
            &&& hex_value(s.take(16)) == (if time < 0 {
                time + 0x1_0000_0000_0000_0000
            } else {
                time as int
            })
            &&& hex_value(s.skip(16)) == (if id < 0 {
                id + 0x1_0000_0000_0000_0000
            } else {
                id as int
            })
        }),
{
    let a = as_unsigned(time as int);
    let b = as_unsigned(id as int);
    let s = identity(time as int, id as int);
    lemma_hex_digits(a, 16);
    lemma_hex_digits(b, 16);
    assert(s.take(16) == hex(a, 16));
    assert(s.skip(16) == hex(b, 16));
    vstd::arithmetic::power2::lemma2_to64();
    lemma_hex_value(a, 16);
    lemma_hex_value(b, 16);
}

/// What goes out for a contact: the message and the document tell the same contact under the
/// same identity.
pub proof fn message_and_document_go_out_together(o: Outgoing, cfg: Config, c: Logged, time: int)
    requires
        goes_out(o, cfg, c, time),
    ensures
        o.n1mm_id@ == identity(time, c.id),
        o.qso@ == framed(
            cfg.station@,
            "QSO"@,
            qso_fields(cfg.station@, cfg.callsign@, cfg.contest@, c, o.n1mm_id@),
        ),
        o.xml@ == contact_document(cfg.station@, cfg.callsign@, cfg.contest@, c, o.n1mm_id@),
{
}

/// Digits denote the number that they were made of, where it fits in them.
proof fn lemma_hex_value(n: nat, width: nat)
    requires
        n < vstd::arithmetic::power2::pow2(4 * width),
    ensures
        hex_value(hex(n, width)) == n,
    decreases width,
{
    use_pow2_facts(width);
    if width > 0 {
        let w = (width - 1) as nat;
        lemma_hex_value(n / 16, w);
        let s = hex(n, width);
        assert(s.drop_last() == hex(n / 16, w));
        assert(s.last() == hex_char(n % 16));
    }
}

/// `hex` gives `width` hexadecimal digits.
proof fn lemma_hex_digits(n: nat, width: nat)
    ensures
        hex(n, width).len() == width,
        forall|i: int|
            0 <= i < width ==> exists|d: nat| d < 16 && #[trigger] hex(n, width)[i] == hex_char(d),
    decreases width,
{
    if width > 0 {
        let rest = hex(n / 16, (width - 1) as nat);
        lemma_hex_digits(n / 16, (width - 1) as nat);
        assert forall|i: int| 0 <= i < width implies exists|d: nat|
            d < 16 && #[trigger] hex(n, width)[i] == hex_char(d) by {
            if i < width - 1 {
                assert(hex(n, width)[i] == rest[i]);
            } else {
                assert(hex(n, width)[i] == hex_char(n % 16));
            }
        }
    }
}

/// Numbers that fit in `width` hexadecimal digits are told apart by them.
proof fn lemma_hex_tells(a: nat, b: nat, width: nat)
    requires
        hex(a, width) == hex(b, width),
        a < vstd::arithmetic::power2::pow2(4 * width),
        b < vstd::arithmetic::power2::pow2(4 * width),
    ensures
        a == b,
    decreases width,
{
    use_pow2_facts(width);
    if width > 0 {
        let w = (width - 1) as nat;
        lemma_hex_digits(a / 16, w);
        lemma_hex_digits(b / 16, w);
        assert(hex(a, width).drop_last() == hex(a / 16, w));
        assert(hex(b, width).drop_last() == hex(b / 16, w));
        assert(hex(a, width).last() == hex_char(a % 16));
        assert(hex(b, width).last() == hex_char(b % 16));
        lemma_hex_tells(a / 16, b / 16, w);
    }
}

/// Four bits to a digit.
proof fn use_pow2_facts(width: nat)
    ensures
        width == 0 ==> vstd::arithmetic::power2::pow2(4 * width) == 1,
        width > 0 ==> vstd::arithmetic::power2::pow2(4 * width) == 16
            * vstd::arithmetic::power2::pow2((4 * (width - 1)) as nat),
{
    vstd::arithmetic::power2::lemma2_to64();
    if width > 0 {
        vstd::arithmetic::power2::lemma_pow2_adds(4, (4 * (width - 1)) as nat);
    }
}

} // verus!
