use n1mm_bridge::config::{Args, Config};
use n1mm_bridge::message::{
    echoreq, frame, handle_incoming, handshake, is_informational, lastqat, msg_contestname, msg_echo,
    msg_echoreq, msg_lastqat, msg_qsonrs, msg_status, parse_frame, tick_messages, InMsg,
};

fn config() -> Config {
    Config::from_args(&Args {
        callsign: "kb3gtn".to_string(),
        station: "wa3nan-remote".to_string(),
        contest: "fd".to_string(),
        local_ip: "192.168.1.17".to_string(),
        broadcast: "255.255.255.255".to_string(),
        db: "Log.db".to_string(),
    })
}

fn strings(list: &[&str]) -> Vec<String> {
    list.iter().map(|s| s.to_string()).collect()
}

#[test]
fn settings_are_raised() {
    let cfg = config();
    assert_eq!(cfg.callsign, "KB3GTN");
    assert_eq!(cfg.station, "WA3NAN-REMOTE");
    assert_eq!(cfg.contest, "FD");
    assert_eq!(cfg.local_ip, "192.168.1.17");
    assert_eq!(cfg.broadcast, "255.255.255.255");
    assert_eq!(cfg.db_path, "Log.db");
}

#[test]
fn settings_are_raised_beyond_ascii() {
    let cfg = Config::from_args(&Args {
        callsign: "straße".to_string(),
        station: "öé1".to_string(),
        contest: "ŉ".to_string(),
        local_ip: "x".to_string(),
        broadcast: "y".to_string(),
        db: "z".to_string(),
    });
    assert_eq!(cfg.callsign, "STRASSE");
    assert_eq!(cfg.station, "ÖÉ1");
    assert_eq!(cfg.contest, "ŉ".to_uppercase());
}

#[test]
fn fixed_messages() {
    let cfg = config();
    assert_eq!(
        msg_echo(&cfg, "2024-06-22", "18:00:01"),
        "DATA__00%WA3NAN-REMOTE%ECHO%2024-06-22%18:00:01%~__DATA"
    );
    assert_eq!(
        msg_contestname(&cfg),
        "DATA__00%WA3NAN-REMOTE%CONTESTNAME%KB3GTN%FD%%~__DATA"
    );
    assert_eq!(
        msg_status(&cfg),
        "DATA__00%WA3NAN-REMOTE%STATUS%1422500%1422500%0%KB3GTN%0%0%SB%MULTI-OP%UNLIMITED%ZB%1.0.11229.0%0%0%0%0%0%0%~__DATA"
    );
    assert_eq!(
        msg_qsonrs(&cfg),
        format!("DATA__00%WA3NAN-REMOTE%QSONRS%FD%0%0%{}%~__DATA", vec!["0"; 30].join("%"))
    );
    assert_eq!(
        lastqat(&cfg, "2024-06-22 18:00:01"),
        "DATA__00%WA3NAN-REMOTE%LASTQAT%2024-06-22 18:00:01%~__DATA"
    );
    assert_eq!(
        echoreq(&cfg, "2024-06-22", "18:00:01"),
        "DATA__00%WA3NAN-REMOTE%ECHOREQ%2024-06-22%18:00:01%~__DATA"
    );
    assert_eq!(frame("A", "B", vec![]), "DATA__00%A%B%~__DATA");
}

#[test]
fn counts_have_33_fields() {
    let msg = parse_frame(&msg_qsonrs(&config())).unwrap();
    assert_eq!(msg.command, "QSONRS");
    assert_eq!(msg.fields.len(), 34);
    assert_eq!(msg.fields[0], "FD");
    assert!(msg.fields[1..33].iter().all(|f| f == "0"));
    assert_eq!(msg.fields[33], "");
}

fn is_number(s: &str, digits: usize) -> bool {
    s.len() == digits && s.chars().all(|c| c.is_ascii_digit())
}

fn is_date(s: &str) -> bool {
    let p: Vec<&str> = s.split('-').collect();
    p.len() == 3 && is_number(p[0], 4) && is_number(p[1], 2) && is_number(p[2], 2)
}

fn is_time(s: &str) -> bool {
    let p: Vec<&str> = s.split(':').collect();
    p.len() == 3 && p.iter().all(|x| is_number(x, 2))
}

#[test]
fn clock_messages() {
    let cfg = config();
    let msg = parse_frame(&msg_lastqat(&cfg)).unwrap();
    assert_eq!(msg.command, "LASTQAT");
    let (date, time) = msg.fields[0].split_once(' ').unwrap();
    assert!(is_date(date) && is_time(time));
    assert_eq!(msg.fields.len(), 2);

    let msg = parse_frame(&msg_echoreq(&cfg)).unwrap();
    assert_eq!(msg.command, "ECHOREQ");
    assert!(is_date(&msg.fields[0]) && is_time(&msg.fields[1]));
    assert_eq!(msg.fields.len(), 3);
}

#[test]
fn messages_at_the_start_and_at_each_tick() {
    let cfg = config();
    let first = handshake(&cfg);
    assert_eq!(first.len(), 2);
    assert_eq!(first[0], msg_qsonrs(&cfg));
    assert_eq!(parse_frame(&first[1]).unwrap().command, "LASTQAT");
    let tick = tick_messages(&cfg);
    assert_eq!(tick.len(), 4);
    assert_eq!(parse_frame(&tick[0]).unwrap().command, "ECHOREQ");
    assert_eq!(tick[1], msg_contestname(&cfg));
    assert_eq!(tick[2], msg_status(&cfg));
    assert_eq!(tick[3], msg_qsonrs(&cfg));
}

#[test]
fn frames_are_parsed() {
    let msg = parse_frame(" \r\nDATA__00%STN%ECHOREQ%a%b%~__DATA\n").unwrap();
    assert_eq!(msg.sender, "STN");
    assert_eq!(msg.command, "ECHOREQ");
    assert_eq!(msg.fields, strings(&["a", "b", ""]));

    // what stands in front of the first separator is passed over
    let msg = parse_frame("DATA__00junk%S%C~__DATA").unwrap();
    assert_eq!((msg.sender.as_str(), msg.command.as_str()), ("S", "C"));
    assert!(msg.fields.is_empty());

    for raw in [
        "",
        "DATA__00",
        "~__DATA",
        "DATA__00~__DATA",
        "DATA__00%S~__DATA",
        "DATA__00%S%C%~__DAT",
        "xDATA__00%S%C%~__DATA",
        "DATA__0%S%C%~__DATA",
        "DATA__00%S%C%~__DATAx",
    ] {
        assert!(parse_frame(raw).is_none(), "{}", raw);
    }
    assert!(parse_frame("DATA__00%%~__DATA").is_some());
}

#[test]
fn framed_messages_come_back() {
    let fields = strings(&["a b", "", "ü€𝄞", "~__DAT"]);
    let msg = parse_frame(&frame("Stn 1", "CMD", fields)).unwrap();
    assert_eq!(msg.sender, "Stn 1");
    assert_eq!(msg.command, "CMD");
    assert_eq!(msg.fields, strings(&["a b", "", "ü€𝄞", "~__DAT", ""]));
}

#[test]
fn echo_requests_are_answered() {
    let cfg = config();
    let ask = |fields: &[&str]| InMsg {
        sender: "OTHER".to_string(),
        command: "ECHOREQ".to_string(),
        fields: strings(fields),
    };
    assert_eq!(
        handle_incoming(&ask(&["d", "t", ""]), &cfg).unwrap(),
        "DATA__00%WA3NAN-REMOTE%ECHO%d%t%~__DATA"
    );
    assert_eq!(
        handle_incoming(&ask(&["d"]), &cfg).unwrap(),
        "DATA__00%WA3NAN-REMOTE%ECHO%d%%~__DATA"
    );
    assert_eq!(
        handle_incoming(&ask(&[]), &cfg).unwrap(),
        "DATA__00%WA3NAN-REMOTE%ECHO%%%~__DATA"
    );
    let own = parse_frame(&msg_echoreq(&cfg)).unwrap();
    let answer = parse_frame(&handle_incoming(&own, &cfg).unwrap()).unwrap();
    assert_eq!(answer.command, "ECHO");
    assert_eq!(answer.fields, own.fields);
    assert!(handle_incoming(&answer, &cfg).is_none());
}

#[test]
fn other_messages_are_not_answered() {
    let cfg = config();
    for command in [
        "ECHO", "LASTQAT", "CONTESTNAME", "STATUS", "QSONRS", "ReserveNr", "XMIT", "QSO", "echoreq", "", "ECHOREQ ",
    ] {
        let msg = InMsg {
            sender: "S".to_string(),
            command: command.to_string(),
            fields: strings(&["a", "b"]),
        };
        assert!(handle_incoming(&msg, &cfg).is_none(), "{}", command);
    }
    for command in ["ECHO", "LASTQAT", "CONTESTNAME", "STATUS", "QSONRS", "ReserveNr", "XMIT"] {
        assert!(is_informational(command));
    }
    for command in ["ECHOREQ", "QSO", "xmit", ""] {
        assert!(!is_informational(command));
    }
}
