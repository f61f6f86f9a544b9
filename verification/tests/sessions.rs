use n1mm_bridge::config::Config;
use n1mm_bridge::contact::DbContact;
use n1mm_bridge::message::{frame, handshake, msg_echo};
use n1mm_bridge::session::{take_frame, Action, Event, Session};
use n1mm_bridge::watcher::Watcher;

fn config() -> Config {
    Config {
        callsign: "KB3GTN".to_string(),
        station: "STN".to_string(),
        contest: "FD".to_string(),
        local_ip: "192.168.1.17".to_string(),
        broadcast: "255.255.255.255".to_string(),
        db_path: "x.db".to_string(),
    }
}

fn sent(action: Action) -> String {
    match action {
        Action::Send(m) => m,
        other => panic!("{:?}", other),
    }
}

fn open(outbound: bool) -> Session {
    let cfg = config();
    let mut s = Session::new(handshake(&cfg), outbound);
    sent(s.step(Event::Ready, &cfg));
    sent(s.step(Event::Ready, &cfg));
    assert!(matches!(s.step(Event::Ready, &cfg), Action::Register));
    s
}

#[test]
fn greeting_goes_first() {
    let cfg = config();
    let first = handshake(&cfg);
    let mut s = Session::new(vec![first[0].clone(), first[1].clone()], false);
    assert_eq!(sent(s.step(Event::Ready, &cfg)), first[0]);
    assert_eq!(sent(s.step(Event::Ready, &cfg)), first[1]);
    assert!(matches!(s.step(Event::Ready, &cfg), Action::Register));
    assert!(matches!(s.step(Event::Ready, &cfg), Action::Wait));
    assert!(matches!(s.step(Event::Ready, &cfg), Action::Wait));
    assert_eq!(sent(s.step(Event::Outbound("m".to_string()), &cfg)), "m");
}

#[test]
fn connections_are_left() {
    let cfg = config();
    for outbound in [false, true] {
        for failure in 0..3 {
            let event = || match failure {
                0 => Event::WriteFailed,
                1 => Event::Closed,
                _ => Event::ReadFailed,
            };
            match open(outbound).step(event(), &cfg) {
                Action::Leave { unregister, release } => {
                    assert!(unregister);
                    assert_eq!(release, outbound);
                }
                other => panic!("{:?}", other),
            }
            // before the greeting is through, only the address is given free
            match Session::new(handshake(&cfg), outbound).step(event(), &cfg) {
                Action::Leave { unregister, release } => {
                    assert!(!unregister);
                    assert_eq!(release, outbound);
                }
                other => panic!("{:?}", other),
            }
        }
    }
}

#[test]
fn frames_are_acted_on() {
    let cfg = config();
    let mut s = open(true);
    let ask = frame("O", "ECHOREQ", vec!["d".to_string(), "t".to_string()]);
    assert_eq!(sent(s.step(Event::Frame(ask), &cfg)), msg_echo(&cfg, "d", "t"));
    assert!(matches!(s.step(Event::Frame(frame("O", "ECHO", vec![])), &cfg), Action::Wait));
    assert!(matches!(s.step(Event::Frame(frame("O", "NEWS", vec![])), &cfg), Action::Wait));
    assert!(matches!(s.step(Event::Frame(frame("O", "QSO", vec![])), &cfg), Action::Wait));
    assert!(matches!(s.step(Event::Frame("junk~__DATA".to_string()), &cfg), Action::Unparseable));
}

#[test]
fn sent_contact_is_stored() {
    let cfg = config();
    let c = DbContact {
        id: 7,
        call: "w1aw".to_string(),
        band: "60M".to_string(),
        mode: "PH".to_string(),
        class: "3a".to_string(),
        section: "ct".to_string(),
        operator: "jo".to_string(),
        date: "2024-06-22".to_string(),
        time: "18:05".to_string(),
    };
    let out = Watcher::new(0).send(&cfg, &c);
    match take_frame(&out.qso, &cfg) {
        Action::Store(got) => {
            assert_eq!(got.call, "W1AW");
            assert_eq!(got.band, "60M");
            assert_eq!(got.mode, "PH");
            assert_eq!(got.n1mm_id, out.n1mm_id);
        }
        other => panic!("{:?}", other),
    }
    let nameless = DbContact { call: " ".to_string(), ..c };
    let out = Watcher::new(0).send(&cfg, &nameless);
    assert!(matches!(take_frame(&out.qso, &cfg), Action::Wait));
}
