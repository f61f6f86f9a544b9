use n1mm_bridge::clock::unix_time;
use n1mm_bridge::config::Config;
use n1mm_bridge::contact::{msg_qso_contact, DbContact, XmlContact};
use n1mm_bridge::session::{take_frame, Action};
use n1mm_bridge::store::{is_duplicate, new_row, row_at};
use n1mm_bridge::watcher::{n1mm_id_at, Watcher};
use n1mm_bridge::xml::{build_contactinfo_xml, parse_xml_contact};

fn config() -> Config {
    Config {
        callsign: "KB3GTN".to_string(),
        station: "STN".to_string(),
        contest: "FD".to_string(),
        local_ip: "192.168.1.17".to_string(),
        broadcast: "255.255.255.255".to_string(),
        db_path: "x.db".to_string(),
    }
}

fn contact(id: i64) -> DbContact {
    DbContact {
        id,
        call: "W1AW".to_string(),
        band: "20M".to_string(),
        mode: "CW".to_string(),
        class: "3A".to_string(),
        section: "CT".to_string(),
        operator: "JO".to_string(),
        date: "2024-06-22".to_string(),
        time: "18:05".to_string(),
    }
}

#[test]
fn identities() {
    for (time, id) in [
        (0, 0),
        (1719079500, 42),
        (i64::MAX, 1),
        (-1, i64::MIN),
        (0x0123_4567_89ab_cdef, -2),
    ] {
        assert_eq!(n1mm_id_at(time, id), format!("{:016x}{:016x}", time as u64, id as u64));
    }
    assert_eq!(n1mm_id_at(1719079500, 42), "000000006677124c000000000000002a");
}

#[test]
fn identities_tell_contacts_apart() {
    let mut seen = Vec::new();
    for time in [0, 1, 16, 1719079500] {
        for id in [0, 1, 16, -1, 1719079500] {
            let s = n1mm_id_at(time, id);
            assert_eq!(s.len(), 32);
            assert!(s.chars().all(|c| c.is_ascii_digit() || ('a'..='f').contains(&c)));
            assert!(!seen.contains(&s));
            seen.push(s);
        }
    }
}

#[test]
fn watcher_moves_on() {
    let cfg = config();
    assert_eq!(Watcher::new(0).since(), 0);
    assert_eq!(Watcher::new(i64::MIN).since(), i64::MIN);
    let mut w = Watcher::new(5);
    assert_eq!(w.since(), 5);
    let c = contact(9);
    let out = w.send_at(&cfg, &c, 1719079500);
    assert_eq!(w.since(), 9);
    assert_eq!(out.n1mm_id, "000000006677124c0000000000000009");
    assert_eq!(out.qso, msg_qso_contact(&cfg, &c, &out.n1mm_id));
    assert_eq!(out.xml, build_contactinfo_xml(&cfg, &c, &out.n1mm_id));
    w.send_at(&cfg, &contact(3), 0);
    assert_eq!(w.since(), 9);
    w.send_at(&cfg, &contact(-1), 0);
    assert_eq!(w.since(), 9);
    w.send_at(&cfg, &contact(i64::MAX), 0);
    assert_eq!(w.since(), i64::MAX);
}

#[test]
fn watcher_takes_the_time_from_the_clock() {
    let before = unix_time();
    let out = Watcher::new(0).send(&config(), &contact(4));
    let after = unix_time();
    let time = i64::from_str_radix(&out.n1mm_id[..16], 16).unwrap();
    assert!(before <= time && time <= after);
    assert_eq!(&out.n1mm_id[16..], "0000000000000004");
}

#[test]
fn duplicates_are_not_stored() {
    assert!(!is_duplicate(0));
    assert!(!is_duplicate(-1));
    assert!(is_duplicate(1));
    assert!(is_duplicate(i64::MAX));
    let contact = || XmlContact {
        call: "K1A".to_string(),
        band: "20M".to_string(),
        mode: "CW".to_string(),
        class: "1D".to_string(),
        section: "MDC".to_string(),
        operator: "".to_string(),
        date: "2024-06-22".to_string(),
        time: "18:05".to_string(),
        n1mm_id: "abc".to_string(),
    };
    assert!(row_at(contact(), 1, "x".to_string()).is_none());
    let row = row_at(contact(), 0, "x".to_string()).unwrap();
    assert_eq!(row.created_at, "x");
    assert_eq!(row.contact.call, "K1A");
    assert!(new_row(contact(), 2).is_none());
    let row = new_row(contact(), 0).unwrap();
    assert_eq!(row.contact.n1mm_id, "abc");
    assert!(row.created_at.ends_with("+00:00"));
    assert_eq!(&row.created_at[10..11], "T");
}

#[test]
fn rows_are_sent_once() {
    let cfg = config();
    // what stays unstamped is not sent again either
    let rows: Vec<i64> = vec![3, 6, 7, 11];
    let mut w = Watcher::new(5);
    let mut sent = Vec::new();
    for poll in 0..4 {
        let since = w.since();
        for id in rows.iter().copied().filter(|id| *id > since).take(poll) {
            w.send_at(&cfg, &contact(id), 0);
            sent.push(id);
        }
        assert!(since <= w.since());
    }
    assert_eq!(sent, vec![6, 7, 11]);
}

#[test]
fn echo_is_not_stored() {
    let cfg = config();
    let out = Watcher::new(0).send(&cfg, &contact(1));
    let mut table = vec![out.n1mm_id.clone()];
    let copies = [
        match take_frame(&out.qso, &cfg) {
            Action::Store(c) => c,
            other => panic!("{:?}", other),
        },
        parse_xml_contact(&out.xml).unwrap(),
    ];
    for echo in copies {
        assert_eq!(echo.n1mm_id, out.n1mm_id);
        let count = table.iter().filter(|id| **id == echo.n1mm_id).count() as i64;
        if let Some(row) = new_row(echo, count) {
            table.push(row.contact.n1mm_id);
        }
    }
    assert_eq!(table.len(), 1);
}
