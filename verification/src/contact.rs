//! Contacts, and how stations send them to each other over TCP.

use vstd::prelude::*;

use crate::band::{
    band_at, band_center_khz, band_from_khz, band_mhz, band_mhz_str, center_khz, is_band, log_mode,
    mode_from_n1mm, mode_to_n1mm, n1mm_mode,
};
use crate::config::Config;
use crate::message::{frame, framed, message_comes_back, message_in};
use crate::number::{bottom, number, parse_whole, top, whole_part, Number};
use crate::text::{
    chars_of, clip, clipped, decimal, find, free_of, is_digit, is_letter, is_white_space,
    push_decimal, signed_decimal, signed_decimal_text, string_of, take_bytes, trim, trimmed,
    uppercase, views,
};

verus! {

// ---------------------------------------------------------------------------
// Contacts
// ---------------------------------------------------------------------------

/// A contact that another station logged.
#[derive(Debug)]
pub struct XmlContact {
    pub call: String,
    pub band: String,
    pub mode: String,
    pub class: String,
    pub section: String,
    pub operator: String,
    pub date: String,
    pub time: String,
    pub n1mm_id: String,
}

/// What a contact that another station logged says.
#[verifier::ext_equal]
pub struct Contact {
    pub call: Seq<char>,
    pub band: Seq<char>,
    pub mode: Seq<char>,
    pub class: Seq<char>,
    pub section: Seq<char>,
    pub operator: Seq<char>,
    pub date: Seq<char>,
    pub time: Seq<char>,
    pub n1mm_id: Seq<char>,
}

impl View for XmlContact {
    type V = Contact;

    open spec fn view(&self) -> Contact {
        Contact {
            call: self.call@,
            band: self.band@,
            mode: self.mode@,
            class: self.class@,
            section: self.section@,
            operator: self.operator@,
            date: self.date@,
            time: self.time@,
            n1mm_id: self.n1mm_id@,
        }
    }
}

/// What an optional contact says.
pub open spec fn contact_view(c: Option<XmlContact>) -> Option<Contact> {
    match c {
        Some(x) => Some(x@),
        None => None,
    }
}

/// A contact out of the contact database.
#[derive(Debug)]
pub struct DbContact {
    pub id: i64,
    pub call: String,
    pub band: String,
    pub mode: String,
    pub class: String,
    pub section: String,
    pub operator: String,
    pub date: String,
    pub time: String,
}

/// What a contact out of the contact database says.
#[verifier::ext_equal]
pub struct Logged {
    pub id: int,
    pub call: Seq<char>,
    pub band: Seq<char>,
    pub mode: Seq<char>,
    pub class: Seq<char>,
    pub section: Seq<char>,
    pub operator: Seq<char>,
    pub date: Seq<char>,
    pub time: Seq<char>,
}

impl View for DbContact {
    type V = Logged;

    open spec fn view(&self) -> Logged {
        Logged {
            id: self.id as int,
            call: self.call@,
            band: self.band@,
            mode: self.mode@,
            class: self.class@,
            section: self.section@,
            operator: self.operator@,
            date: self.date@,
            time: self.time@,
        }
    }
}

// ---------------------------------------------------------------------------
// Parts of a contact
// ---------------------------------------------------------------------------

/// The letters that `s` begins with.
pub open spec fn letters(s: Seq<char>) -> Seq<char>
    decreases s.len(),
{
    if s.len() > 0 && is_letter(s[0]) {
        seq![s[0]] + letters(s.skip(1))
    } else {
        Seq::empty()
    }
}

/// The letters that a call begins with.
pub fn call_prefix(call: &str) -> (r: String)
    ensures
        r@ == letters(call@),
{
    let v: Vec<char> = chars_of(call);
    let mut i: usize = 0;
    assert(v@.skip(0) == v@);
    assert(v@.take(0) + letters(v@) == letters(v@));
    while i < v.len() && (('a' <= v[i] && v[i] <= 'z') || ('A' <= v[i] && v[i] <= 'Z'))
        invariant
            i <= v@.len(),
            v@ == call@,
            letters(call@) == v@.take(i as int) + letters(v@.skip(i as int)),
        decreases v.len() - i,
    {
        proof {
            let s = v@.skip(i as int);
            assert(s.skip(1) == v@.skip(i + 1));
            assert(v@.take(i as int) + (seq![s[0]] + letters(s.skip(1))) == v@.take(i + 1)
                + letters(v@.skip(i + 1)));
        }
        i = i + 1;
    }
    assert(v@.take(i as int) + Seq::<char>::empty() == v@.subrange(0, i as int));
    string_of(v.as_slice(), 0, i)
}

/// The date and time of a contact in one text, with the seconds that the database lacks.
pub open spec fn contact_timestamp(c: Logged) -> Seq<char> {
    c.date + " "@ + c.time + ":00"@
}

/// The date and time of a contact in one text.
pub fn timestamp_of(c: &DbContact) -> (r: String)
    ensures
        r@ == contact_timestamp(c@),
{
    let mut r: String = c.date.clone();
    r.append(" ");
    r.append(c.time.as_str());
    r.append(":00");
    r
}

/// The date in a timestamp, and the first five bytes of the time behind it; midnight where
/// there is no time.
pub open spec fn date_and_time(timestamp: Seq<char>) -> (Seq<char>, Seq<char>) {
    let k = find(timestamp, ' ');
    if k < timestamp.len() {
        (timestamp.take(k), clipped(timestamp.skip(k + 1), 5))
    } else {
        (timestamp, "00:00"@)
    }
}

/// The date in a timestamp, and the hour and minute.
pub fn split_timestamp(timestamp: &str) -> (r: (String, String))
    ensures
        (r.0@, r.1@) == date_and_time(timestamp@),
{
    let v: Vec<char> = chars_of(timestamp);
    let mut k: usize = 0;
    while k < v.len() && v[k] != ' '
        invariant
            k <= v@.len(),
            v@ == timestamp@,
            forall|j: int| 0 <= j < k ==> v@[j] != ' ',
        decreases v.len() - k,
    {
        k = k + 1;
    }
    proof {
        crate::text::lemma_find_at(timestamp@, ' ', k as int);
    }
    if k < v.len() {
        let date: String = string_of(v.as_slice(), 0, k);
        let rest: String = string_of(v.as_slice(), k + 1, v.len());
        assert(v@.subrange(0, k as int) == timestamp@.take(k as int));
        assert(v@.subrange(k + 1, v@.len() as int) == timestamp@.skip(k + 1));
        (date, clip(rest.as_str(), 5))
    } else {
        (timestamp.to_owned(), "00:00".to_owned())
    }
}

// ---------------------------------------------------------------------------
// Sending
// ---------------------------------------------------------------------------

/// A frequency on a band, in kilohertz with two places behind the point.
pub open spec fn qso_frequency(band: Seq<char>) -> Seq<char> {
    decimal(center_khz(band) as nat) + ".00"@
}

/// A frequency on a band, in kilohertz with two places behind the point.
pub fn frequency_text(band: &str) -> (r: String)
    ensures
        r@ == qso_frequency(band@),
{
    let mut r: String = String::new();
    push_decimal(&mut r, band_center_khz(band) as u64);
    r.append(".00");
    assert(r@ == qso_frequency(band@));
    r
}

/// The 45 fields of a contact message.
pub open spec fn qso_fields(
    station: Seq<char>,
    callsign: Seq<char>,
    contest: Seq<char>,
    c: Logged,
    n1mm_id: Seq<char>,
) -> Seq<Seq<char>> {
    seq![
        "1900-01-01 00:00:00"@,  // 0: base timestamp
        contact_timestamp(c),  // 1: timestamp
        c.call,  // 2: call
        qso_frequency(c.band),  // 3: receive frequency
        qso_frequency(c.band),  // 4: transmit frequency
        n1mm_mode(c.mode),  // 5: mode
        contest,  // 6: contest
        "59"@,  // 7: report sent
        "59"@,  // 8: report received
        "K"@,  // 9: country prefix
        callsign,  // 10: callsign of this station
        Seq::empty(),  // 11
        Seq::empty(),  // 12
        Seq::empty(),  // 13
        "0"@,  // 14
        c.section,  // 15: section
        Seq::empty(),  // 16
        "0"@,  // 17
        "1"@,  // 18: points
        signed_decimal(c.id),  // 19: number of the contact
        "1"@,  // 20
        "0"@,  // 21
        "0"@,  // 22
        Seq::empty(),  // 23
        band_mhz(c.band),  // 24: band in megahertz
        letters(c.call),  // 25: call prefix
        c.class,  // 26: class
        "1"@,  // 27
        c.operator,  // 28: operator
        Seq::empty(),  // 29
        "1"@,  // 30
        "0"@,  // 31
        Seq::empty(),  // 32
        "NA"@,  // 33: continent
        Seq::empty(),  // 34
        "1"@,  // 35
        Seq::empty(),  // 36
        "0"@,  // 37
        "0"@,  // 38
        station,  // 39: station name
        "1"@,  // 40
        "0"@,  // 41
        n1mm_id,  // 42: identity
        "1"@,  // 43
        Seq::empty(),  // 44
    ]
}

/// The fields of a contact message.
fn qso_field_list(cfg: &Config, c: &DbContact, n1mm_id: &str) -> (r: Vec<String>)
    ensures
        views(r@) == qso_fields(cfg.station@, cfg.callsign@, cfg.contest@, c@, n1mm_id@),
{
    let r: Vec<String> = vec![
        "1900-01-01 00:00:00".to_owned(),
        timestamp_of(c),
        c.call.clone(),
        frequency_text(c.band.as_str()),
        frequency_text(c.band.as_str()),
        mode_to_n1mm(c.mode.as_str()).to_owned(),
        cfg.contest.clone(),
        "59".to_owned(),
        "59".to_owned(),
        "K".to_owned(),
        cfg.callsign.clone(),
        String::new(),
        String::new(),
        String::new(),
        "0".to_owned(),
        c.section.clone(),
        String::new(),
        "0".to_owned(),
        "1".to_owned(),
        signed_decimal_text(c.id),
        "1".to_owned(),
        "0".to_owned(),
        "0".to_owned(),
        String::new(),
        band_mhz_str(c.band.as_str()).to_owned(),
        call_prefix(c.call.as_str()),
        c.class.clone(),
        "1".to_owned(),
        c.operator.clone(),
        String::new(),
        "1".to_owned(),
        "0".to_owned(),
        String::new(),
        "NA".to_owned(),
        String::new(),
        "1".to_owned(),
        String::new(),
        "0".to_owned(),
        "0".to_owned(),
        cfg.station.clone(),
        "1".to_owned(),
        "0".to_owned(),
        n1mm_id.to_owned(),
        "1".to_owned(),
        String::new(),
    ];
    assert(views(r@) =~= qso_fields(cfg.station@, cfg.callsign@, cfg.contest@, c@, n1mm_id@));
    r
}

/// The message that sends a contact to another station.
pub fn msg_qso_contact(cfg: &Config, c: &DbContact, n1mm_id: &str) -> (r: String)
    ensures
        r@ == framed(
            cfg.station@,
            "QSO"@,
            qso_fields(cfg.station@, cfg.callsign@, cfg.contest@, c@, n1mm_id@),
        ),
{
    let fields: Vec<String> = qso_field_list(cfg, c, n1mm_id);
    frame(cfg.station.as_str(), "QSO", fields)
}

// ---------------------------------------------------------------------------
// Receiving
// ---------------------------------------------------------------------------

/// The frequency in a field, in whole kilohertz; zero where the field holds no number.
pub open spec fn field_khz(s: Seq<char>) -> u32 {
    match number(s) {
        Some(n) => whole_part(n),
        None => 0,
    }
}

/// The contact in the fields of a contact message: none where fields are missing, where call
/// or identity are empty, or where the frequency lies in no band.
pub open spec fn contact_in_fields(f: Seq<Seq<char>>) -> Option<Contact> {
    if f.len() < 43 {
        None
    } else {
        let call = trimmed(f[2]);
        let n1mm_id = trimmed(f[42]);
        let (date, time) = date_and_time(trimmed(f[1]));
        match band_at(field_khz(trimmed(f[3]))) {
            Some(band) => if call.len() == 0 || n1mm_id.len() == 0 {
                None
            } else {
                Some(
                    Contact {
                        call: uppercase(call),
                        band,
                        mode: log_mode(trimmed(f[5])),
                        class: uppercase(trimmed(f[26])),
                        section: uppercase(trimmed(f[15])),
                        operator: uppercase(trimmed(f[28])),
                        date,
                        time,
                        n1mm_id,
                    },
                )
            },
            None => None,
        }
    }
}

/// `s` trimmed and in upper case.
pub fn trimmed_upper(s: &str) -> (r: String)
    ensures
        r@ == uppercase(trimmed(s@)),
        r@.len() == 0 <==> trimmed(s@).len() == 0,
{
    let t: String = trim(s);
    t.as_str().to_uppercase()
}

/// The contact in the fields of a contact message.
pub fn parse_tcp_qso(fields: &[String]) -> (r: Option<XmlContact>)
    ensures
        contact_view(r) == contact_in_fields(views(fields@)),
{
    if fields.len() < 43 {
        return None;
    }
    let call: String = trimmed_upper(fields[2].as_str());
    let n1mm_id: String = trim(fields[42].as_str());
    if call.as_str().is_empty() || n1mm_id.as_str().is_empty() {
        return None;
    }
    let khz: u32 = parse_whole(trim(fields[3].as_str()).as_str());
    let band: String = match band_from_khz(khz) {
        Some(band) => band,
        None => {
            return None;
        },
    };
    let mode: String = mode_from_n1mm(trim(fields[5].as_str()).as_str());
    let (date, time): (String, String) = split_timestamp(trim(fields[1].as_str()).as_str());
    Some(
        XmlContact {
            call,
            band,
            mode,
            class: trimmed_upper(fields[26].as_str()),
            section: trimmed_upper(fields[15].as_str()),
            operator: trimmed_upper(fields[28].as_str()),
            date,
            time,
            n1mm_id,
        },
    )
}

// ---------------------------------------------------------------------------
// Laws
// ---------------------------------------------------------------------------

/// What another station stores of a contact: its text trimmed and in upper case, its band and
/// mode as the database knows them (20M and PH for what it does not), and its timestamp.
pub open spec fn as_received(c: Logged, n1mm_id: Seq<char>) -> Contact {
    let (date, time) = date_and_time(trimmed(contact_timestamp(c)));
    Contact {
        call: uppercase(trimmed(c.call)),
        band: if is_band(c.band) {
            c.band
        } else {
            "20M"@
        },
        mode: if c.mode == "CW"@ || c.mode == "DIG"@ {
            c.mode
        } else {
            "PH"@
        },
        class: uppercase(trimmed(c.class)),
        section: uppercase(trimmed(c.section)),
        operator: uppercase(trimmed(c.operator)),
        date,
        time,
        n1mm_id: trimmed(n1mm_id),
    }
}

/// A station can send a contact: no text in it holds the separator.
pub open spec fn sendable(c: Logged) -> bool {
    &&& !c.call.contains('%')
    &&& !c.class.contains('%')
    &&& !c.section.contains('%')
    &&& !c.operator.contains('%')
    &&& !c.date.contains('%')
    &&& !c.time.contains('%')
}

/// A contact that one station sends over TCP is the contact that another one takes out of
/// the message; only a contact without a call or without an identity is dropped.
pub proof fn contact_comes_back(
    station: Seq<char>,
    callsign: Seq<char>,
    contest: Seq<char>,
    c: Logged,
    n1mm_id: Seq<char>,
)
    requires
        !station.contains('%'),
        !callsign.contains('%'),
        !contest.contains('%'),
        !n1mm_id.contains('%'),
        sendable(c),
    ensures
        message_in(framed(station, "QSO"@, qso_fields(station, callsign, contest, c, n1mm_id)))
            matches Some(m) && m.sender == station && m.command == "QSO"@ && contact_in_fields(
            m.fields,
        ) == (if trimmed(c.call).len() == 0 || trimmed(n1mm_id).len() == 0 {
            None
        } else {
            Some(as_received(c, n1mm_id))
        }),
{
    let fields = qso_fields(station, callsign, contest, c, n1mm_id);
    lemma_qso_fields_free(station, callsign, contest, c, n1mm_id);
    reveal_strlit("QSO");
    message_comes_back(station, "QSO"@, fields);
    let all = fields.push(Seq::empty());
    lemma_frequency_comes_back(c.band);
    crate::band::mode_comes_back(c.mode);
    lemma_trimmed_mode(c.mode);
    assert(all[1] == contact_timestamp(c));
    assert(all[2] == c.call);
    assert(all[3] == qso_frequency(c.band));
    assert(all[5] == n1mm_mode(c.mode));
    assert(all[15] == c.section);
    assert(all[26] == c.class);
    assert(all[28] == c.operator);
    assert(all[42] == n1mm_id);
    crate::band::center_lies_in_band(c.band);
}

/// A date without a space in it and a time of five bytes are read back from the timestamp of
/// a contact.
pub proof fn timestamp_comes_back(c: Logged)
    requires
        c.date.len() > 0,
        !is_white_space(c.date[0]),
        !c.date.contains(' '),
        take_bytes(c.time, 5) == Some(c.time),
    ensures
        date_and_time(trimmed(contact_timestamp(c))) == (c.date, c.time),
{
    reveal_strlit(" ");
    reveal_strlit(":00");
    let s = contact_timestamp(c);
    let n = c.date.len() as int;
    assert(s[0] == c.date[0]);
    assert(s.last() == '0');
    crate::text::lemma_trimmed_unchanged(s);
    assert forall|j: int| 0 <= j < n implies s[j] != ' ' by {
        assert(s[j] == c.date[j]);
        assert(c.date.contains(c.date[j]));
    }
    assert(s[n] == ' ');
    crate::text::lemma_find_at(s, ' ', n);
    assert(s.take(n) == c.date);
    assert(s.skip(n + 1) == c.time + ":00"@);
    crate::text::lemma_take_bytes_longer(c.time, ":00"@, 5);
}

/// The prefix of a call is as much of it as is letters from the beginning.
pub proof fn prefix_is_the_letters_in_front(s: Seq<char>)
    ensures
        ({
            let n = letters(s).len() as int;
            &&& n <= s.len()
            &&& letters(s) == s.take(n)
            &&& forall|i: int| 0 <= i < n ==> is_letter(#[trigger] s[i])
            &&& n < s.len() ==> !is_letter(s[n])
        }),
    decreases s.len(),
{
    if s.len() > 0 && is_letter(s[0]) {
        let rest = s.skip(1);
        prefix_is_the_letters_in_front(rest);
        let n = letters(s).len() as int;
        assert(letters(s) =~= s.take(n));
        assert forall|i: int| 0 <= i < n implies is_letter(#[trigger] s[i]) by {
            if i > 0 {
                assert(rest[i - 1] == s[i]);
            }
        }
    } else {
        assert(letters(s) =~= s.take(0));
    }
}

/// A timestamp is cut at its first space: the date is in front of it, and the time is the first
/// five bytes behind it. One without a space is a date, and its time is midnight.
pub proof fn timestamps_are_cut_at_the_first_space(date: Seq<char>, rest: Seq<char>)
    requires
        !date.contains(' '),
    ensures
        date_and_time(date + " "@ + rest) == (date, clipped(rest, 5)),
        date_and_time(date) == (date, "00:00"@),
{
    reveal_strlit(" ");
    let n = date.len() as int;
    let s = date + " "@ + rest;
    assert forall|j: int| 0 <= j < n implies s[j] != ' ' && date[j] != ' ' by {
        assert(s[j] == date[j]);
        assert(date.contains(date[j]));
    }
    crate::text::lemma_find_at(s, ' ', n);
    crate::text::lemma_find_at(date, ' ', n);
    assert(s.take(n) == date);
    assert(s.skip(n + 1) == rest);
}

/// The timestamp of a contact is its date, its time and no seconds.
pub proof fn contact_timestamp_is_date_and_time(c: Logged)
    ensures
        contact_timestamp(c) == c.date + seq![' '] + c.time + seq![':', '0', '0'],
{
    reveal_strlit(" ");
    reveal_strlit(":00");
    assert(" "@ =~= seq![' ']);
    assert(":00"@ =~= seq![':', '0', '0']);
}

/// A frequency goes out as the kilohertz in the middle of the band, with two zeros behind the
/// point.
pub proof fn frequency_goes_out_in_kilohertz(band: Seq<char>)
    ensures
        ({
            let s = qso_frequency(band);
            let n = s.len() - 3;
            &&& s.skip(n) == seq!['.', '0', '0']
            &&& s.take(n) == decimal(center_khz(band) as nat)
            &&& field_khz(trimmed(s)) == center_khz(band)
        }),
{
    reveal_strlit(".00");
    let s = qso_frequency(band);
    let n = s.len() - 3;
    assert(s.skip(n) =~= seq!['.', '0', '0']);
    assert(s.take(n) =~= decimal(center_khz(band) as nat));
    lemma_frequency_comes_back(band);
}

/// A contact message has 45 fields. These tell the contact, the station and the identity; the
/// others are the same in every contact message.
pub proof fn contact_fields_tell(
    station: Seq<char>,
    callsign: Seq<char>,
    contest: Seq<char>,
    c: Logged,
    n1mm_id: Seq<char>,
    other_station: Seq<char>,
    other_callsign: Seq<char>,
    other_contest: Seq<char>,
    d: Logged,
    other_id: Seq<char>,
)
    ensures
        ({
            let f = qso_fields(station, callsign, contest, c, n1mm_id);
            let g = qso_fields(other_station, other_callsign, other_contest, d, other_id);
            &&& f.len() == 45 && g.len() == 45
            &&& f[1] == contact_timestamp(c) && f[2] == c.call
            &&& f[3] == qso_frequency(c.band) && f[4] == qso_frequency(c.band)
            &&& f[5] == n1mm_mode(c.mode) && f[6] == contest && f[10] == callsign
            &&& f[15] == c.section && f[19] == signed_decimal(c.id)
            &&& f[24] == band_mhz(c.band) && f[25] == letters(c.call)
            &&& f[26] == c.class && f[28] == c.operator
            &&& f[39] == station && f[42] == n1mm_id
            &&& f[0] == g[0] && f[7] == g[7] && f[8] == g[8] && f[9] == g[9] && f[11] == g[11] && f[12] == g[12]
            &&& f[13] == g[13] && f[14] == g[14] && f[16] == g[16] && f[17] == g[17] && f[18] == g[18] && f[20] == g[20]
            &&& f[21] == g[21] && f[22] == g[22] && f[23] == g[23] && f[27] == g[27] && f[29] == g[29] && f[30] == g[30]
            &&& f[31] == g[31] && f[32] == g[32] && f[33] == g[33] && f[34] == g[34] && f[35] == g[35] && f[36] == g[36]
            &&& f[37] == g[37] && f[38] == g[38] && f[40] == g[40] && f[41] == g[41] && f[43] == g[43] && f[44] == g[44]
        }),
{
}

/// A frequency field that is at most nine tenths of a kilohertz above a whole number of them is
/// cut to it; one that is no number, or below zero, is no frequency.
pub proof fn frequency_field_is_cut(s: Seq<char>, digits: nat, exponent: int, khz: u32)
    ensures
        number(s) == Some(Number::Finite { negative: false, digits, exponent }) && khz * bottom(
            exponent,
        ) <= top(digits, exponent) && 10 * top(digits, exponent) <= (10 * khz + 9) * bottom(exponent)
            ==> field_khz(s) == khz,
        number(s) == Some(Number::Finite { negative: true, digits, exponent }) ==> field_khz(s)
            == 0,
        number(s) is None ==> field_khz(s) == 0,
{
    if khz * bottom(exponent) <= top(digits, exponent) && 10 * top(digits, exponent) <= (10 * khz
        + 9) * bottom(exponent) {
        crate::number::numbers_are_cut(digits, exponent, khz as nat);
    }
}

/// What the fields of a contact message tell, whatever else stands in them and however many more
/// there are: each part of the contact has a field of its own, and a contact is there if and only
/// if the first 43 fields are, call and identity are not empty, and the frequency lies in a band.
pub proof fn contact_is_told_by_its_fields(f: Seq<Seq<char>>)
    ensures
        contact_in_fields(f) is Some <==> f.len() >= 43 && trimmed(f[2]).len() > 0 && trimmed(
            f[42],
        ).len() > 0 && band_at(field_khz(trimmed(f[3]))) is Some,
        contact_in_fields(f) matches Some(c) ==> {
            &&& c.call == uppercase(trimmed(f[2]))
            &&& Some(c.band) == band_at(field_khz(trimmed(f[3])))
            &&& c.mode == log_mode(f[5])
            &&& c.class == uppercase(trimmed(f[26]))
            &&& c.section == uppercase(trimmed(f[15]))
            &&& c.operator == uppercase(trimmed(f[28]))
            &&& (c.date, c.time) == date_and_time(trimmed(f[1]))
            &&& c.n1mm_id == trimmed(f[42])
        },
{
    if f.len() >= 43 {
        crate::band::white_space_does_not_matter(f[5]);
    }
}

/// The frequency that a contact message carries is read back as the middle of the band.
proof fn lemma_frequency_comes_back(band: Seq<char>)
    ensures
        field_khz(trimmed(qso_frequency(band))) == center_khz(band),
{
    let n = center_khz(band) as nat;
    crate::number::lemma_number_with_zeros(n);
    crate::number::lemma_whole_of_hundredths(n);
}

/// The modes of N1MM+ have no white space around them.
pub proof fn lemma_trimmed_mode(m: Seq<char>)
    ensures
        trimmed(n1mm_mode(m)) == n1mm_mode(m),
{
    reveal_strlit("CW");
    reveal_strlit("DIG");
    reveal_strlit("USB");
    crate::text::lemma_trimmed_unchanged(n1mm_mode(m));
}

/// Digits and signs are not separators.
proof fn lemma_decimal_free(n: int)
    ensures
        !signed_decimal(n).contains('%'),
{
    let d = if n < 0 {
        (-n) as nat
    } else {
        n as nat
    };
    crate::number::lemma_decimal_digits(d);
    let s = signed_decimal(n);
    assert forall|i: int| 0 <= i < s.len() implies s[i] != '%' by {
        if n < 0 && i > 0 {
            assert(s[i] == decimal(d)[i - 1]);
            assert(is_digit(decimal(d)[i - 1]));
        } else if n >= 0 {
            assert(s[i] == decimal(d)[i]);
            assert(is_digit(decimal(d)[i]));
        }
    }
}

/// Letters are not separators.
proof fn lemma_letters_free(s: Seq<char>)
    ensures
        !letters(s).contains('%'),
    decreases s.len(),
{
    if s.len() > 0 && is_letter(s[0]) {
        lemma_letters_free(s.skip(1));
        let t = letters(s);
        assert forall|i: int| 0 <= i < t.len() implies t[i] != '%' by {
            if i > 0 {
                assert(t[i] == letters(s.skip(1))[i - 1]);
                assert(letters(s.skip(1)).contains(t[i]));
            }
        }
    }
}

/// The names that N1MM+ has for bands and modes hold no separator.
proof fn lemma_names_free(b: Seq<char>, m: Seq<char>)
    ensures
        !band_mhz(b).contains('%'),
        !n1mm_mode(m).contains('%'),
{
    crate::band::lemma_edge_text(b);
    reveal_strlit("CW");
    reveal_strlit("DIG");
    reveal_strlit("USB");
}

/// No field of a contact message holds the separator.
proof fn lemma_qso_fields_free(
    station: Seq<char>,
    callsign: Seq<char>,
    contest: Seq<char>,
    c: Logged,
    n1mm_id: Seq<char>,
)
    requires
        !station.contains('%'),
        !callsign.contains('%'),
        !contest.contains('%'),
        !n1mm_id.contains('%'),
        sendable(c),
    ensures
        free_of(qso_fields(station, callsign, contest, c, n1mm_id), '%'),
{
    let f = qso_fields(station, callsign, contest, c, n1mm_id);
    reveal_strlit("1900-01-01 00:00:00");
    reveal_strlit("59");
    reveal_strlit("K");
    reveal_strlit("0");
    reveal_strlit("1");
    reveal_strlit("NA");
    reveal_strlit(" ");
    reveal_strlit(":00");
    reveal_strlit(".00");
    lemma_decimal_free(c.id);
    lemma_letters_free(c.call);
    lemma_names_free(c.band, c.mode);
    lemma_decimal_free(center_khz(c.band) as int);
    assert(!contact_timestamp(c).contains('%')) by {
        let t = contact_timestamp(c);
        assert forall|i: int| 0 <= i < t.len() implies t[i] != '%' by {
            let n = c.date.len() as int;
            let k = c.time.len() as int;
            if i < n {
                assert(t[i] == c.date[i]);
                assert(c.date.contains(t[i]));
            } else if n < i < n + 1 + k {
                assert(t[i] == c.time[i - n - 1]);
                assert(c.time.contains(t[i]));
            }
        }
    }
    assert(!qso_frequency(c.band).contains('%')) by {
        let d = decimal(center_khz(c.band) as nat);
        let t = qso_frequency(c.band);
        assert forall|i: int| 0 <= i < t.len() implies t[i] != '%' by {
            if i < d.len() {
                assert(t[i] == d[i]);
                assert(d.contains(t[i]));
            }
        }
    }
    assert(!Seq::<char>::empty().contains('%'));
}

/// A contact says what its parts are.
pub proof fn contact_says_its_parts(x: XmlContact, d: DbContact, o: Option<XmlContact>)
    ensures
        x@.call == x.call@ && x@.band == x.band@ && x@.mode == x.mode@,
        x@.class == x.class@ && x@.section == x.section@ && x@.operator == x.operator@,
        x@.date == x.date@ && x@.time == x.time@ && x@.n1mm_id == x.n1mm_id@,
        d@.id == d.id && d@.call == d.call@ && d@.band == d.band@ && d@.mode == d.mode@,
        d@.class == d.class@ && d@.section == d.section@ && d@.operator == d.operator@,
        d@.date == d.date@ && d@.time == d.time@,
        o is None <==> contact_view(o) is None,
        o is Some ==> contact_view(o)->0 == o->0@,
{
}

} // verus!
