use n1mm_bridge::config::Config;
use n1mm_bridge::contact::{DbContact, XmlContact};
use n1mm_bridge::xml::{
    build_contactinfo_xml, contact_in_document, frequency_in_tens, parse_xml_contact, read_datagram, read_document,
    root_tag, write_document, Datagram, Element, XmlDoc, XmlNode,
};

fn config() -> Config {
    Config {
        callsign: "KB3GTN".to_string(),
        station: "STN".to_string(),
        contest: "FD".to_string(),
        local_ip: "192.168.1.17".to_string(),
        broadcast: "255.255.255.255".to_string(),
        db_path: "x.db".to_string(),
    }
}

fn contact() -> DbContact {
    DbContact {
        id: 42,
        call: "w1aw".to_string(),
        band: "20M".to_string(),
        mode: "CW".to_string(),
        class: "3a".to_string(),
        section: "ct".to_string(),
        operator: "jo".to_string(),
        date: "2024-06-22".to_string(),
        time: "18:05".to_string(),
    }
}

const ID: &str = "00000000667712340000000000000029";

#[test]
fn contact_document_text() {
    assert_eq!(
        build_contactinfo_xml(&config(), &contact(), ID),
        "<?xml version=\"1.0\" encoding=\"utf-8\"?>\n\
<contactinfo>\n\
\t<app>N1MM</app>\n\
\t<contestname>FD</contestname>\n\
\t<contestnr>1</contestnr>\n\
\t<timestamp>2024-06-22 18:05:00</timestamp>\n\
\t<mycall>KB3GTN</mycall>\n\
\t<band>14.0</band>\n\
\t<rxfreq>1420000</rxfreq>\n\
\t<txfreq>1420000</txfreq>\n\
\t<operator>jo</operator>\n\
\t<mode>CW</mode>\n\
\t<call>w1aw</call>\n\
\t<countryprefix>K</countryprefix>\n\
\t<wpxprefix>w</wpxprefix>\n\
\t<stationprefix>KB3GTN</stationprefix>\n\
\t<continent>NA</continent>\n\
\t<snt>59</snt><sntnr>1</sntnr>\n\
\t<rcv>59</rcv><rcvnr>3a</rcvnr>\n\
\t<gridsquare></gridsquare>\n\
\t<exchange1>3a</exchange1>\n\
\t<section>ct</section>\n\
\t<comment></comment>\n\
\t<qth></qth><name></name><power></power>\n\
\t<misctext></misctext>\n\
\t<zone>5</zone><prec></prec><ck>0</ck>\n\
\t<ismultiplier1>0</ismultiplier1>\n\
\t<ismultiplier2>0</ismultiplier2>\n\
\t<ismultiplier3>0</ismultiplier3>\n\
\t<points>1</points>\n\
\t<radionr>1</radionr>\n\
\t<run1run2>1</run1run2>\n\
\t<RoverLocation></RoverLocation>\n\
\t<RadioInterfaced>0</RadioInterfaced>\n\
\t<NetworkedCompNr>0</NetworkedCompNr>\n\
\t<IsOriginal>True</IsOriginal>\n\
\t<NetBiosName>STN</NetBiosName>\n\
\t<IsRunQSO>0</IsRunQSO>\n\
\t<StationName>STN</StationName>\n\
\t<ID>00000000667712340000000000000029</ID>\n\
\t<IsClaimedQso>1</IsClaimedQso>\n\
\t<SentExchange>1A MDC</SentExchange>\n\
</contactinfo>"
    );
    assert_eq!(frequency_in_tens("70CM"), "43210000");
}

fn check(got: &XmlContact, band: &str, mode: &str) {
    assert_eq!(got.call, "W1AW");
    assert_eq!(got.band, band);
    assert_eq!(got.mode, mode);
    assert_eq!(got.class, "3A");
    assert_eq!(got.section, "CT");
    assert_eq!(got.operator, "JO");
    assert_eq!(got.date, "2024-06-22");
    assert_eq!(got.time, "18:05");
    assert_eq!(got.n1mm_id, ID);
}

#[test]
fn broadcast_contacts_come_back() {
    for band in ["160M", "80M", "60M", "40M", "30M", "20M", "17M", "15M", "12M", "10M", "6M", "2M", "70CM", "33CM"] {
        for mode in ["CW", "DIG", "PH"] {
            let mut c = contact();
            c.band = band.to_string();
            c.mode = mode.to_string();
            let xml = build_contactinfo_xml(&config(), &c, ID);
            check(&parse_xml_contact(&xml).unwrap(), if band == "33CM" { "20M" } else { band }, mode);
        }
    }
    let mut c = contact();
    c.call = " \t".to_string();
    assert!(parse_xml_contact(&build_contactinfo_xml(&config(), &c, ID)).is_none());
    assert!(parse_xml_contact(&build_contactinfo_xml(&config(), &contact(), "\n")).is_none());
}

#[test]
fn plain_text_comes_back() {
    let mut c = contact();
    c.section = "a > b ]] > c\n\td \"e\" 'f' %25 ä€𝄞\u{7f}".to_string();
    let got = parse_xml_contact(&build_contactinfo_xml(&config(), &c, ID)).unwrap();
    assert_eq!(got.section, c.section.to_uppercase());
}

#[test]
fn markup_does_not_stand_for_itself() {
    for section in ["a<b", "a&b", "]]>", "\u{1}", "\u{ffff}"] {
        let mut c = contact();
        c.section = section.to_string();
        assert!(parse_xml_contact(&build_contactinfo_xml(&config(), &c, ID)).is_none(), "{:?}", section);
    }
    let mut c = contact();
    c.section = "a&amp;b\r\nc".to_string();
    let got = parse_xml_contact(&build_contactinfo_xml(&config(), &c, ID)).unwrap();
    assert_eq!(got.section, "A&B\nC");
}

fn node(name: &str, text: Option<&str>) -> (String, Option<String>) {
    (name.to_string(), text.map(|t| t.to_string()))
}

fn nodes(doc: &XmlDoc) -> Vec<(String, Option<String>)> {
    doc.nodes.iter().map(|n| (n.name.clone(), n.text.clone())).collect()
}

#[test]
fn written_documents_are_read_back() {
    let doc = read_document(&write_document("r1", &vec![])).unwrap();
    assert_eq!(doc.root, "r1");
    assert_eq!(nodes(&doc), vec![node("", None), node("r1", Some("\n")), node("", Some("\n"))]);

    let list = vec![
        Element { lead: "", name: "a", text: "x".to_string() },
        Element { lead: "", name: "b2", text: String::new() },
        Element { lead: "\n\t", name: "a", text: " > ]] \n".to_string() },
        Element { lead: "words", name: "xml", text: "é".to_string() },
    ];
    let doc = read_document(&write_document("Root", &list)).unwrap();
    assert_eq!(doc.root, "Root");
    assert_eq!(
        nodes(&doc),
        vec![
            node("", None),
            node("Root", None),
            node("a", Some("x")),
            node("", Some("x")),
            node("b2", None),
            node("", Some("\n\t")),
            node("a", Some(" > ]] \n")),
            node("", Some(" > ]] \n")),
            node("", Some("words")),
            node("xml", Some("é")),
            node("", Some("é")),
            node("", Some("\n")),
        ]
    );
}

#[test]
fn other_documents() {
    let doc = read_document("<!-- note --><n:e xmlns:n='u'><n:f>1&lt;2<g/>tail</n:f><![CDATA[<x>]]></n:e>").unwrap();
    assert_eq!(doc.root, "e");
    assert_eq!(doc.get("f"), "1<2");
    assert_eq!(doc.get("g"), "");
    assert_eq!(doc.get("h"), "");
    assert!(read_document("").is_none());
    assert!(read_document("text").is_none());
    assert!(read_document("<a>").is_none());
    assert!(read_document("<a></b>").is_none());
    assert!(read_document("<!DOCTYPE a><a/>").is_none());
}

const RECEIVED: &str = "<?xml version=\"1.0\" encoding=\"utf-8\"?>\n<contactinfo>\n\
    <timestamp>2020-01-17 16:43:38</timestamp><mycall>W2XYZ</mycall><band>3.5</band>\
    <rxfreq>352519</rxfreq><operator> ab </operator><mode>cw</mode><call> w1aw </call>\
    <exchange1>2b</exchange1><section>wma</section><ID> f9ffac4fcd3e479ca86e137df1338531 </ID>\n</contactinfo>";

#[test]
fn received_contact_is_read() {
    let got = parse_xml_contact(RECEIVED).unwrap();
    assert_eq!(got.call, "W1AW");
    assert_eq!(got.band, "80M");
    assert_eq!(got.mode, "CW");
    assert_eq!(got.class, "2B");
    assert_eq!(got.section, "WMA");
    assert_eq!(got.operator, "AB");
    assert_eq!(got.date, "2020-01-17");
    assert_eq!(got.time, "16:43");
    assert_eq!(got.n1mm_id, "f9ffac4fcd3e479ca86e137df1338531");
}

#[test]
fn what_is_no_contact_is_dropped() {
    assert!(parse_xml_contact("not xml").is_none());
    assert!(parse_xml_contact(&RECEIVED.replace("contactinfo", "contactreplace")).is_none());
    assert!(parse_xml_contact(&RECEIVED.replace("contactinfo", "contactdelete")).is_none());
    assert!(parse_xml_contact(&RECEIVED.replace(" w1aw ", " ")).is_none());
    assert!(parse_xml_contact(&RECEIVED.replace(" f9ffac4fcd3e479ca86e137df1338531 ", "")).is_none());
    assert!(parse_xml_contact(&RECEIVED.replace("3.5", "11 meters")).is_none());
    let got = parse_xml_contact(&RECEIVED.replace("2020-01-17 16:43:38", "2020-01-17")).unwrap();
    assert_eq!((got.date.as_str(), got.time.as_str()), ("2020-01-17", "00:00"));
}

#[test]
fn first_element_counts() {
    let doc = XmlDoc {
        root: "contactinfo".to_string(),
        nodes: vec![
            XmlNode { name: String::new(), text: Some("call".to_string()) },
            XmlNode { name: "call".to_string(), text: Some(" a1 ".to_string()) },
            XmlNode { name: "call".to_string(), text: Some("b2".to_string()) },
            XmlNode { name: "ID".to_string(), text: Some("i".to_string()) },
            XmlNode { name: "band".to_string(), text: Some("20".to_string()) },
        ],
    };
    let got = contact_in_document(&doc).unwrap();
    assert_eq!(got.call, "A1");
    assert_eq!(got.band, "20M");
    assert_eq!(got.mode, "DIG");
    assert_eq!(got.date, "");
    assert_eq!(got.time, "00:00");
    assert_eq!(got.class, "");
}

#[test]
fn datagrams() {
    match read_datagram(RECEIVED.as_bytes()) {
        Datagram::Logged(c) => assert_eq!(c.call, "W1AW"),
        Datagram::Ignored(tag) => panic!("{}", tag),
    }
    match read_datagram(b"<RadioInfo><Freq>1</Freq></RadioInfo>") {
        Datagram::Ignored(tag) => assert_eq!(tag, "RadioInfo"),
        Datagram::Logged(_) => panic!(),
    }
    match read_datagram(b"<contactinfo/>") {
        Datagram::Ignored(tag) => assert_eq!(tag, "contactinfo"),
        Datagram::Logged(_) => panic!(),
    }
    match read_datagram(b"\xff\xfe") {
        Datagram::Ignored(tag) => assert_eq!(tag, "<parse error>"),
        Datagram::Logged(_) => panic!(),
    }
    let mut bytes = RECEIVED.replace("wma", "w\u{0}").into_bytes();
    let place = bytes.iter().position(|b| *b == 0).unwrap();
    bytes[place] = 0xff;
    match read_datagram(&bytes) {
        Datagram::Logged(c) => assert_eq!(c.section, "W\u{fffd}"),
        Datagram::Ignored(tag) => panic!("{}", tag),
    }
    assert_eq!(root_tag("<a><b/></a>"), "a");
    assert_eq!(root_tag("<a>"), "<parse error>");
    let xml = build_contactinfo_xml(&config(), &contact(), ID);
    match read_datagram(xml.as_bytes()) {
        Datagram::Logged(c) => check(&c, "20M", "CW"),
        Datagram::Ignored(tag) => panic!("{}", tag),
    }
}
