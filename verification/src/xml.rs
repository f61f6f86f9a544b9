//! Contacts as XML datagrams: `<contactinfo>` documents.

use vstd::prelude::*;
use vstd::utf8::*;

use crate::band::{
    band_center_khz, band_from_n1mm, band_mhz, band_mhz_str, band_named, center_khz, log_mode,
    mode_from_n1mm, mode_to_n1mm, n1mm_mode,
};
use crate::config::Config;
use crate::contact::{
    as_received, call_prefix, contact_timestamp, contact_view, date_and_time, letters,
    split_timestamp, timestamp_of, Contact, DbContact, Logged, XmlContact,
};
use crate::number::Number;
use crate::text::{
    decimal, decimal_text, is_digit, is_letter, lossy, lossy_text, opt_view, same, trim, trimmed,
    uppercase,
};

verus! {

// ---------------------------------------------------------------------------
// Writing documents
// ---------------------------------------------------------------------------

/// An element with text in it, and the text in front of it.
#[verifier::ext_equal]
pub struct Piece {
    pub lead: Seq<char>,
    pub name: Seq<char>,
    pub text: Seq<char>,
}

/// An element to write, and the text in front of it.
pub struct Element {
    pub lead: &'static str,
    pub name: &'static str,
    pub text: String,
}

impl View for Element {
    type V = Piece;

    open spec fn view(&self) -> Piece {
        Piece { lead: self.lead@, name: self.name@, text: self.text@ }
    }
}

/// What a list of elements says.
pub open spec fn pieces(v: Seq<Element>) -> Seq<Piece> {
    v.map_values(|e: Element| e@)
}

/// The characters of one element with what stands in front of it.
pub open spec fn element(p: Piece) -> Seq<char> {
    p.lead + "<"@ + p.name + ">"@ + p.text + "</"@ + p.name + ">"@
}

/// The characters of elements in a row.
pub open spec fn elements(p: Seq<Piece>) -> Seq<char>
    decreases p.len(),
{
    if p.len() == 0 {
        Seq::empty()
    } else {
        elements(p.drop_last()) + element(p.last())
    }
}

/// A document: the declaration, and the root element with a line end at its end.
pub open spec fn document(root: Seq<char>, p: Seq<Piece>) -> Seq<char> {
    "<?xml version=\"1.0\" encoding=\"utf-8\"?>\n<"@ + root + ">"@ + elements(p) + "\n</"@ + root
        + ">"@
}

/// Writes a document.
pub fn write_document(root: &str, list: &Vec<Element>) -> (r: String)
    ensures
        r@ == document(root@, pieces(list@)),
{
    let mut r: String = "<?xml version=\"1.0\" encoding=\"utf-8\"?>\n<".to_owned();
    r.append(root);
    r.append(">");
    let ghost head = r@;
    let ghost all = pieces(list@);
    assert(all.take(0) == Seq::<Piece>::empty());
    assert(head + Seq::<char>::empty() == head);
    for i in 0..list.len()
        invariant
            all == pieces(list@),
            r@ == head + elements(all.take(i as int)),
    {
        let ghost before = r@;
        r.append(list[i].lead);
        r.append("<");
        r.append(list[i].name);
        r.append(">");
        r.append(list[i].text.as_str());
        r.append("</");
        r.append(list[i].name);
        r.append(">");
        proof {
            let t = all.take(i + 1);
            assert(t.drop_last() == all.take(i as int));
            assert(t.last() == list@[i as int]@);
            assert(r@ == before + element(list@[i as int]@));
        }
    }
    assert(all.take(list@.len() as int) == all);
    r.append("\n</");
    r.append(root);
    r.append(">");
    assert(r@ == document(root@, all));
    r
}

// ---------------------------------------------------------------------------
// Writing contacts
// ---------------------------------------------------------------------------

/// A frequency on a band, in tens of hertz.
pub open spec fn tens_of_hertz(band: Seq<char>) -> Seq<char> {
    decimal((center_khz(band) * 100) as nat)
}

/// A frequency on a band, in tens of hertz.
pub fn frequency_in_tens(band: &str) -> (r: String)
    ensures
        r@ == tens_of_hertz(band@),
{
    decimal_text(band_center_khz(band) as u64 * 100)
}

/// An element on a line of its own.
pub open spec fn line(name: Seq<char>, text: Seq<char>) -> Piece {
    Piece { lead: "\n\t"@, name, text }
}

/// An element on the line of the one in front of it.
pub open spec fn next(name: Seq<char>, text: Seq<char>) -> Piece {
    Piece { lead: Seq::empty(), name, text }
}

/// An element on a line of its own.
fn line_element(name: &'static str, text: String) -> (r: Element)
    ensures
        r@ == line(name@, text@),
{
    Element { lead: "\n\t", name, text }
}

/// An element on the line of the one in front of it.
fn next_element(name: &'static str, text: String) -> (r: Element)
    ensures
        r@ == next(name@, text@),
{
    let lead: &'static str = "";
    proof {
        reveal_strlit("");
        assert(lead@ =~= Seq::<char>::empty());
    }
    Element { lead, name, text }
}

/// The elements of a contact document.
pub open spec fn contact_pieces(
    station: Seq<char>,
    callsign: Seq<char>,
    contest: Seq<char>,
    c: Logged,
    n1mm_id: Seq<char>,
) -> Seq<Piece> {
    seq![
        line("app"@, "N1MM"@),
        line("contestname"@, contest),
        line("contestnr"@, "1"@),
        line("timestamp"@, contact_timestamp(c)),
        line("mycall"@, callsign),
        line("band"@, band_mhz(c.band)),
        line("rxfreq"@, tens_of_hertz(c.band)),
        line("txfreq"@, tens_of_hertz(c.band)),
        line("operator"@, c.operator),
        line("mode"@, n1mm_mode(c.mode)),
        line("call"@, c.call),
        line("countryprefix"@, "K"@),
        line("wpxprefix"@, letters(c.call)),
        line("stationprefix"@, callsign),
        line("continent"@, "NA"@),
        line("snt"@, "59"@),
        next("sntnr"@, "1"@),
        line("rcv"@, "59"@),
        next("rcvnr"@, c.class),
        line("gridsquare"@, Seq::empty()),
        line("exchange1"@, c.class),
        line("section"@, c.section),
        line("comment"@, Seq::empty()),
        line("qth"@, Seq::empty()),
        next("name"@, Seq::empty()),
        next("power"@, Seq::empty()),
        line("misctext"@, Seq::empty()),
        line("zone"@, "5"@),
        next("prec"@, Seq::empty()),
        next("ck"@, "0"@),
        line("ismultiplier1"@, "0"@),
        line("ismultiplier2"@, "0"@),
        line("ismultiplier3"@, "0"@),
        line("points"@, "1"@),
        line("radionr"@, "1"@),
        line("run1run2"@, "1"@),
        line("RoverLocation"@, Seq::empty()),
        line("RadioInterfaced"@, "0"@),
        line("NetworkedCompNr"@, "0"@),
        line("IsOriginal"@, "True"@),
        line("NetBiosName"@, station),
        line("IsRunQSO"@, "0"@),
        line("StationName"@, station),
        line("ID"@, n1mm_id),
        line("IsClaimedQso"@, "1"@),
        line("SentExchange"@, "1A MDC"@),
    ]
}

/// The document that broadcasts a contact.
pub open spec fn contact_document(
    station: Seq<char>,
    callsign: Seq<char>,
    contest: Seq<char>,
    c: Logged,
    n1mm_id: Seq<char>,
) -> Seq<char> {
    document("contactinfo"@, contact_pieces(station, callsign, contest, c, n1mm_id))
}

/// The elements of a contact document.
fn contact_elements(cfg: &Config, c: &DbContact, n1mm_id: &str) -> (r: Vec<Element>)
    ensures
        pieces(r@) == contact_pieces(cfg.station@, cfg.callsign@, cfg.contest@, c@, n1mm_id@),
{
    let r: Vec<Element> = vec![
        line_element("app", "N1MM".to_owned()),
        line_element("contestname", cfg.contest.clone()),
        line_element("contestnr", "1".to_owned()),
        line_element("timestamp", timestamp_of(c)),
        line_element("mycall", cfg.callsign.clone()),
        line_element("band", band_mhz_str(c.band.as_str()).to_owned()),
        line_element("rxfreq", frequency_in_tens(c.band.as_str())),
        line_element("txfreq", frequency_in_tens(c.band.as_str())),
        line_element("operator", c.operator.clone()),
        line_element("mode", mode_to_n1mm(c.mode.as_str()).to_owned()),
        line_element("call", c.call.clone()),
        line_element("countryprefix", "K".to_owned()),
        line_element("wpxprefix", call_prefix(c.call.as_str())),
        line_element("stationprefix", cfg.callsign.clone()),
        line_element("continent", "NA".to_owned()),
        line_element("snt", "59".to_owned()),
        next_element("sntnr", "1".to_owned()),
        line_element("rcv", "59".to_owned()),
        next_element("rcvnr", c.class.clone()),
        line_element("gridsquare", String::new()),
        line_element("exchange1", c.class.clone()),
        line_element("section", c.section.clone()),
        line_element("comment", String::new()),
        line_element("qth", String::new()),
        next_element("name", String::new()),
        next_element("power", String::new()),
        line_element("misctext", String::new()),
        line_element("zone", "5".to_owned()),
        next_element("prec", String::new()),
        next_element("ck", "0".to_owned()),
        line_element("ismultiplier1", "0".to_owned()),
        line_element("ismultiplier2", "0".to_owned()),
        line_element("ismultiplier3", "0".to_owned()),
        line_element("points", "1".to_owned()),
        line_element("radionr", "1".to_owned()),
        line_element("run1run2", "1".to_owned()),
        line_element("RoverLocation", String::new()),
        line_element("RadioInterfaced", "0".to_owned()),
        line_element("NetworkedCompNr", "0".to_owned()),
        line_element("IsOriginal", "True".to_owned()),
        line_element("NetBiosName", cfg.station.clone()),
        line_element("IsRunQSO", "0".to_owned()),
        line_element("StationName", cfg.station.clone()),
        line_element("ID", n1mm_id.to_owned()),
        line_element("IsClaimedQso", "1".to_owned()),
        line_element("SentExchange", "1A MDC".to_owned()),
    ];
    assert(pieces(r@) =~= contact_pieces(
        cfg.station@,
        cfg.callsign@,
        cfg.contest@,
        c@,
        n1mm_id@,
    ));
    r
}

/// Builds the document that broadcasts a contact.
pub fn build_contactinfo_xml(cfg: &Config, c: &DbContact, n1mm_id: &str) -> (r: String)
    ensures
        r@ == contact_document(cfg.station@, cfg.callsign@, cfg.contest@, c@, n1mm_id@),
{
    let list: Vec<Element> = contact_elements(cfg, c, n1mm_id);
    write_document("contactinfo", &list)
}

// ---------------------------------------------------------------------------
// Reading documents
// ---------------------------------------------------------------------------

/// A node of a document: its name, empty for what is no element, and its text. The text of
/// an element is the text that it begins with.
#[derive(Debug)]
pub struct XmlNode {
    pub name: String,
    pub text: Option<String>,
}

/// A document: the name of its root element, and all its nodes in the order in which they
/// begin.
#[derive(Debug)]
pub struct XmlDoc {
    pub root: String,
    pub nodes: Vec<XmlNode>,
}

/// What a node says.
pub open spec fn node_view(n: XmlNode) -> (Seq<char>, Option<Seq<char>>) {
    (n.name@, opt_view(n.text))
}

impl View for XmlDoc {
    type V = (Seq<char>, Seq<(Seq<char>, Option<Seq<char>>)>);

    open spec fn view(&self) -> (Seq<char>, Seq<(Seq<char>, Option<Seq<char>>)>) {
        (self.root@, self.nodes@.map_values(|n: XmlNode| node_view(n)))
    }
}

/// What an optional document says.
pub open spec fn doc_view(d: Option<XmlDoc>) -> Option<
    (Seq<char>, Seq<(Seq<char>, Option<Seq<char>>)>),
> {
    match d {
        Some(doc) => Some(doc@),
        None => None,
    }
}

/// The nodes that `roxmltree::Document::parse` finds in a text; none where the text is no
/// well-formed document.
pub uninterp spec fn xml_tree(xml: Seq<char>) -> Option<
    (Seq<char>, Seq<(Seq<char>, Option<Seq<char>>)>),
>;

/// A name of letters and digits.
pub open spec fn is_plain_name(s: Seq<char>) -> bool {
    &&& s.len() > 0
    &&& is_letter(s[0])
    &&& forall|i: int| 0 <= i < s.len() ==> is_letter(#[trigger] s[i]) || is_digit(s[i])
}

/// A character that stands for itself in the text of a document.
pub open spec fn is_plain_char(c: char) -> bool {
    let u = c as u32;
    (u >= 0x20 || u == 0x9 || u == 0xa) && u != 0xfffe && u != 0xffff && c != '<' && c != '&'
}

/// `]]>` stands at place `i`.
pub open spec fn closes_data(s: Seq<char>, i: int) -> bool {
    0 <= i && i + 3 <= s.len() && s[i] == ']' && s[i + 1] == ']' && s[i + 2] == '>'
}

/// Text that stands for itself in a document.
pub open spec fn is_plain_text(s: Seq<char>) -> bool {
    &&& forall|i: int| 0 <= i < s.len() ==> is_plain_char(#[trigger] s[i])
    &&& forall|i: int| !#[trigger] closes_data(s, i)
}

/// An element with a plain name and plain text.
pub open spec fn is_plain(p: Piece) -> bool {
    is_plain_text(p.lead) && is_plain_name(p.name) && is_plain_text(p.text)
}

/// A text that may be empty.
pub open spec fn text_if_any(s: Seq<char>) -> Option<Seq<char>> {
    if s.len() == 0 {
        None
    } else {
        Some(s)
    }
}

/// The node that a text makes; none where it is empty.
pub open spec fn text_nodes(s: Seq<char>) -> Seq<(Seq<char>, Option<Seq<char>>)> {
    if s.len() == 0 {
        Seq::empty()
    } else {
        seq![(Seq::empty(), Some(s))]
    }
}

/// The nodes that elements in a row make.
pub open spec fn element_nodes(p: Seq<Piece>) -> Seq<(Seq<char>, Option<Seq<char>>)>
    decreases p.len(),
{
    if p.len() == 0 {
        Seq::empty()
    } else {
        let e = p.last();
        element_nodes(p.drop_last()) + text_nodes(e.lead) + seq![(e.name, text_if_any(e.text))]
            + text_nodes(e.text)
    }
}

/// The nodes of a document: the one above the root element, the root element, its elements
/// and the line end behind them.
pub open spec fn document_nodes(root: Seq<char>, p: Seq<Piece>) -> Seq<
    (Seq<char>, Option<Seq<char>>),
> {
    let first = if p.len() == 0 {
        "\n"@
    } else {
        p[0].lead
    };
    seq![(Seq::empty(), None), (root, text_if_any(first))] + element_nodes(p) + text_nodes("\n"@)
}

/// A document that is read as it was written: plain names and plain text.
pub open spec fn is_plain_document(root: Seq<char>, p: Seq<Piece>) -> bool {
    &&& is_plain_name(root)
    &&& p.len() < 0x1000_0000
    &&& forall|i: int| 0 <= i < p.len() ==> is_plain(#[trigger] p[i])
}

/// `roxmltree::Document::parse` reads a text, `root_element` and `tag_name` give the name of
/// the root element, and `descendants`, `tag_name` and `text` give name and text of each node.
/// All of it is a function of the text alone. In a document of the form that
/// `write_document` writes, with plain names and plain text, the nodes are those that were
/// written; of other documents nothing more is said here. How deep elements may be nested
/// before the stack runs out is up to the machine.
#[verifier::external_body]
fn read_xml(xml: &str) -> (r: Option<XmlDoc>)
    ensures
        doc_view(r) == xml_tree(xml@),
        forall|root: Seq<char>, p: Seq<Piece>|
            is_plain_document(root, p) && xml@ == #[trigger] document(root, p) ==> doc_view(r)
                == Some((root, document_nodes(root, p))),
{
    match roxmltree::Document::parse(xml) {
        Ok(doc) => Some(
            XmlDoc {
                root: doc.root_element().tag_name().name().to_string(),
                nodes: doc.descendants().map(
                    |n| XmlNode {
                        name: n.tag_name().name().to_string(),
                        text: n.text().map(|t| t.to_string()),
                    },
                ).collect(),
            },
        ),
        Err(_) => None,
    }
}

/// Reads a document; none where the text is not well-formed. A document with plain names and
/// plain text is read as it was written.
pub fn read_document(xml: &str) -> (r: Option<XmlDoc>)
    ensures
        doc_view(r) == xml_tree(xml@),
        forall|root: Seq<char>, p: Seq<Piece>|
            is_plain_document(root, p) && xml@ == #[trigger] document(root, p) ==> doc_view(r)
                == Some((root, document_nodes(root, p))),
{
    read_xml(xml)
}

/// The text of the first node with a name; empty where there is none.
pub open spec fn text_named(
    nodes: Seq<(Seq<char>, Option<Seq<char>>)>,
    name: Seq<char>,
) -> Seq<char>
    decreases nodes.len(),
{
    if nodes.len() == 0 {
        Seq::empty()
    } else if nodes[0].0 == name {
        match nodes[0].1 {
            Some(text) => text,
            None => Seq::empty(),
        }
    } else {
        text_named(nodes.skip(1), name)
    }
}

impl XmlDoc {
    /// The text of the first node with a name, without the white space around it.
    pub fn get(&self, name: &str) -> (r: String)
        ensures
            r@ == trimmed(text_named(self@.1, name@)),
    {
        let ghost all = self@.1;
        assert(all.skip(0) == all);
        for i in 0..self.nodes.len()
            invariant
                all == self@.1,
                text_named(all, name@) == text_named(all.skip(i as int), name@),
        {
            let ghost rest = all.skip(i as int);
            assert(rest[0] == node_view(self.nodes@[i as int]));
            assert(rest.skip(1) == all.skip(i + 1));
            if same(self.nodes[i].name.as_str(), name) {
                return match &self.nodes[i].text {
                    Some(text) => trim(text.as_str()),
                    None => {
                        proof {
                            crate::text::lemma_trimmed_unchanged(Seq::empty());
                        }
                        String::new()
                    },
                };
            }
        }
        proof {
            crate::text::lemma_trimmed_unchanged(Seq::empty());
        }
        String::new()
    }
}

// ---------------------------------------------------------------------------
// Reading contacts
// ---------------------------------------------------------------------------

/// The contact in a document: none where the root element is no `contactinfo`, where call or
/// identity are empty, or where the band is none that the database knows.
pub open spec fn contact_in_tree(
    tree: (Seq<char>, Seq<(Seq<char>, Option<Seq<char>>)>),
) -> Option<Contact> {
    let get = |name: Seq<char>| trimmed(text_named(tree.1, name));
    let call = get("call"@);
    let n1mm_id = get("ID"@);
    let (date, time) = date_and_time(get("timestamp"@));
    if tree.0 != "contactinfo"@ || call.len() == 0 || n1mm_id.len() == 0 {
        None
    } else {
        match band_named(get("band"@)) {
            Some(band) => Some(
                Contact {
                    call: uppercase(call),
                    band,
                    mode: log_mode(get("mode"@)),
                    class: uppercase(get("exchange1"@)),
                    section: uppercase(get("section"@)),
                    operator: uppercase(get("operator"@)),
                    date,
                    time,
                    n1mm_id,
                },
            ),
            None => None,
        }
    }
}

/// The contact in a document.
pub fn contact_in_document(doc: &XmlDoc) -> (r: Option<XmlContact>)
    ensures
        contact_view(r) == contact_in_tree(doc@),
{
    if !same(doc.root.as_str(), "contactinfo") {
        return None;
    }
    let call: String = doc.get("call");
    let n1mm_id: String = doc.get("ID");
    if call.as_str().is_empty() || n1mm_id.as_str().is_empty() {
        return None;
    }
    let band: String = match band_from_n1mm(doc.get("band").as_str()) {
        Some(band) => band,
        None => {
            return None;
        },
    };
    let mode: String = mode_from_n1mm(doc.get("mode").as_str());
    let (date, time): (String, String) = split_timestamp(doc.get("timestamp").as_str());
    Some(
        XmlContact {
            call: call.as_str().to_uppercase(),
            band,
            mode,
            class: doc.get("exchange1").as_str().to_uppercase(),
            section: doc.get("section").as_str().to_uppercase(),
            operator: doc.get("operator").as_str().to_uppercase(),
            date,
            time,
            n1mm_id,
        },
    )
}

/// The contact in a text: none where the text is no document.
pub open spec fn contact_in_xml(xml: Seq<char>) -> Option<Contact> {
    match xml_tree(xml) {
        Some(tree) => contact_in_tree(tree),
        None => None,
    }
}

/// The contact in a text. The document with which a station broadcasts a contact is read as
/// that contact.
pub fn parse_xml_contact(xml: &str) -> (r: Option<XmlContact>)
    ensures
        contact_view(r) == contact_in_xml(xml@),
        forall|
            station: Seq<char>,
            callsign: Seq<char>,
            contest: Seq<char>,
            c: Logged,
            n1mm_id: Seq<char>,
        |
            can_be_broadcast(station, callsign, contest, c, n1mm_id) && xml@
                == #[trigger] contact_document(station, callsign, contest, c, n1mm_id)
                ==> contact_view(r) == broadcast_received(c, n1mm_id),
{
    let doc: Option<XmlDoc> = read_document(xml);
    proof {
        assert forall|
            station: Seq<char>,
            callsign: Seq<char>,
            contest: Seq<char>,
            c: Logged,
            n1mm_id: Seq<char>,
        |
            can_be_broadcast(station, callsign, contest, c, n1mm_id) && xml@
                == #[trigger] contact_document(
                station,
                callsign,
                contest,
                c,
                n1mm_id,
            ) implies contact_in_xml(xml@) == broadcast_received(c, n1mm_id) by {
            lemma_plain_contact(station, callsign, contest, c, n1mm_id);
            lemma_broadcast_received(station, callsign, contest, c, n1mm_id);
            let p = contact_pieces(station, callsign, contest, c, n1mm_id);
            assert(xml@ == document("contactinfo"@, p));
        }
    }
    match doc {
        Some(doc) => contact_in_document(&doc),
        None => None,
    }
}

/// The name of the root element of a text; a note where the text is no document.
pub open spec fn root_named(xml: Seq<char>) -> Seq<char> {
    match xml_tree(xml) {
        Some(tree) => tree.0,
        None => "<parse error>"@,
    }
}

/// The name of the root element of a text; a note where the text is no document.
pub fn root_tag(xml: &str) -> (r: String)
    ensures
        r@ == root_named(xml@),
{
    match read_document(xml) {
        Some(doc) => doc.root,
        None => "<parse error>".to_owned(),
    }
}

/// What came in a datagram.
#[derive(Debug)]
pub enum Datagram {
    /// A contact.
    Logged(XmlContact),
    /// Something else: the name of its root element.
    Ignored(String),
}

/// Reads a datagram. The bytes with which a station broadcasts a contact are read as that
/// contact.
pub fn read_datagram(bytes: &[u8]) -> (r: Datagram)
    ensures
        match contact_in_xml(lossy(bytes@)) {
            Some(c) => r matches Datagram::Logged(x) && x@ == c,
            None => r matches Datagram::Ignored(tag) && tag@ == root_named(lossy(bytes@)),
        },
        forall|
            station: Seq<char>,
            callsign: Seq<char>,
            contest: Seq<char>,
            c: Logged,
            n1mm_id: Seq<char>,
        |
            can_be_broadcast(station, callsign, contest, c, n1mm_id) && bytes@ == encode_utf8(
                #[trigger] contact_document(station, callsign, contest, c, n1mm_id),
            ) ==> contact_in_xml(lossy(bytes@)) == broadcast_received(c, n1mm_id),
{
    let xml: String = lossy_text(bytes);
    proof {
        broadcast use encode_utf8_valid_utf8, encode_utf8_decode_utf8;

    }
    match parse_xml_contact(xml.as_str()) {
        Some(contact) => Datagram::Logged(contact),
        None => Datagram::Ignored(root_tag(xml.as_str())),
    }
}

// ---------------------------------------------------------------------------
// What was broadcast is what is received
// ---------------------------------------------------------------------------

/// A station can broadcast a contact: every text stands for itself in a document.
pub open spec fn can_be_broadcast(
    station: Seq<char>,
    callsign: Seq<char>,
    contest: Seq<char>,
    c: Logged,
    n1mm_id: Seq<char>,
) -> bool {
    &&& is_plain_text(station)
    &&& is_plain_text(callsign)
    &&& is_plain_text(contest)
    &&& is_plain_text(c.call)
    &&& is_plain_text(c.class)
    &&& is_plain_text(c.section)
    &&& is_plain_text(c.operator)
    &&& is_plain_text(contact_timestamp(c))
    &&& is_plain_text(n1mm_id)
}

/// What another station takes out of the document that broadcasts a contact: what it would
/// take out of a contact message. Only a contact without a call or without an identity is
/// dropped.
pub open spec fn broadcast_received(c: Logged, n1mm_id: Seq<char>) -> Option<Contact> {
    if trimmed(c.call).len() == 0 || trimmed(n1mm_id).len() == 0 {
        None
    } else {
        Some(as_received(c, n1mm_id))
    }
}

/// The contact in the nodes of a contact document.
proof fn lemma_broadcast_received(
    station: Seq<char>,
    callsign: Seq<char>,
    contest: Seq<char>,
    c: Logged,
    n1mm_id: Seq<char>,
)
    ensures
        contact_in_tree(
            (
                "contactinfo"@,
                document_nodes(
                    "contactinfo"@,
                    contact_pieces(station, callsign, contest, c, n1mm_id),
                ),
            ),
        ) == broadcast_received(c, n1mm_id),
{
    let root = "contactinfo"@;
    let p = contact_pieces(station, callsign, contest, c, n1mm_id);
    let nodes = document_nodes(root, p);
    lemma_places(station, callsign, contest, c, n1mm_id);
    crate::contact::lemma_trimmed_mode(c.mode);
    crate::band::mode_comes_back(c.mode);
    crate::band::lemma_edge_text(c.band);
    crate::band::edge_names_band(c.band);
    assert(text_named(nodes, "call"@) == c.call);
    assert(text_named(nodes, "ID"@) == n1mm_id);
    assert(text_named(nodes, "timestamp"@) == contact_timestamp(c));
    assert(text_named(nodes, "band"@) == band_mhz(c.band));
    assert(text_named(nodes, "mode"@) == n1mm_mode(c.mode));
    assert(text_named(nodes, "exchange1"@) == c.class);
    assert(text_named(nodes, "section"@) == c.section);
    assert(text_named(nodes, "operator"@) == c.operator);
}

/// Where the elements stand that a contact is read from.
proof fn lemma_places(
    station: Seq<char>,
    callsign: Seq<char>,
    contest: Seq<char>,
    c: Logged,
    n1mm_id: Seq<char>,
)
    ensures
        ({
            let nodes = document_nodes(
                "contactinfo"@,
                contact_pieces(station, callsign, contest, c, n1mm_id),
            );
            &&& text_named(nodes, "timestamp"@) == contact_timestamp(c)
            &&& text_named(nodes, "band"@) == band_mhz(c.band)
            &&& text_named(nodes, "operator"@) == c.operator
            &&& text_named(nodes, "mode"@) == n1mm_mode(c.mode)
            &&& text_named(nodes, "call"@) == c.call
            &&& text_named(nodes, "exchange1"@) == c.class
            &&& text_named(nodes, "section"@) == c.section
            &&& text_named(nodes, "ID"@) == n1mm_id
        }),
{
    let root = "contactinfo"@;
    let p = contact_pieces(station, callsign, contest, c, n1mm_id);
    reveal_strlit("contactinfo");
    reveal_strlit("app");
    reveal_strlit("contestname");
    reveal_strlit("contestnr");
    reveal_strlit("timestamp");
    reveal_strlit("mycall");
    reveal_strlit("band");
    reveal_strlit("rxfreq");
    reveal_strlit("txfreq");
    reveal_strlit("operator");
    reveal_strlit("mode");
    reveal_strlit("call");
    reveal_strlit("countryprefix");
    reveal_strlit("wpxprefix");
    reveal_strlit("stationprefix");
    reveal_strlit("continent");
    reveal_strlit("snt");
    reveal_strlit("sntnr");
    reveal_strlit("rcv");
    reveal_strlit("rcvnr");
    reveal_strlit("gridsquare");
    reveal_strlit("exchange1");
    reveal_strlit("section");
    reveal_strlit("comment");
    reveal_strlit("qth");
    reveal_strlit("name");
    reveal_strlit("power");
    reveal_strlit("misctext");
    reveal_strlit("zone");
    reveal_strlit("prec");
    reveal_strlit("ck");
    reveal_strlit("ismultiplier1");
    reveal_strlit("ismultiplier2");
    reveal_strlit("ismultiplier3");
    reveal_strlit("points");
    reveal_strlit("radionr");
    reveal_strlit("run1run2");
    reveal_strlit("RoverLocation");
    reveal_strlit("RadioInterfaced");
    reveal_strlit("NetworkedCompNr");
    reveal_strlit("IsOriginal");
    reveal_strlit("NetBiosName");
    reveal_strlit("IsRunQSO");
    reveal_strlit("StationName");
    reveal_strlit("ID");
    assert("contestnr"@[0] == 'c' && "timestamp"@[0] == 't' && "wpxprefix"@[0] == 'w'
        && "continent"@[0] == 'c' && "exchange1"@[0] == 'e');
    assert("band"@[0] == 'b' && "mode"@[0] == 'm' && "call"@[0] == 'c');
    assert("ck"@[0] == 'c' && "ID"@[0] == 'I');
    reveal_with_fuel(absent, 44);
    lemma_text_of_piece(root, p, 3);
    lemma_text_of_piece(root, p, 5);
    lemma_text_of_piece(root, p, 8);
    lemma_text_of_piece(root, p, 9);
    lemma_text_of_piece(root, p, 10);
    lemma_text_of_piece(root, p, 20);
    lemma_text_of_piece(root, p, 21);
    lemma_text_of_piece(root, p, 43);
}

/// None of the first `k` elements has this name.
spec fn absent(p: Seq<Piece>, k: int, name: Seq<char>) -> bool
    decreases k,
{
    k <= 0 || (p[k - 1].name != name && absent(p, k - 1, name))
}

/// None of the first `k` elements has this name.
proof fn lemma_absent(p: Seq<Piece>, k: int, name: Seq<char>)
    requires
        absent(p, k, name),
    ensures
        forall|j: int| 0 <= j < k ==> (#[trigger] p[j]).name != name,
    decreases k,
{
    if k > 0 {
        lemma_absent(p, k - 1, name);
    }
}

/// The first element with a name is the one whose text is read.
proof fn lemma_text_of_piece(root: Seq<char>, p: Seq<Piece>, k: int)
    requires
        0 <= k < p.len(),
        p[k].name.len() > 0,
        p[k].name != root,
        absent(p, k, p[k].name),
    ensures
        text_named(document_nodes(root, p), p[k].name) == p[k].text,
{
    lemma_absent(p, k, p[k].name);
    let first = if p.len() == 0 {
        "\n"@
    } else {
        p[0].lead
    };
    let head = seq![(Seq::<char>::empty(), None), (root, text_if_any(first))];
    let tail = text_nodes("\n"@);
    lemma_text_of_element(p, k, tail);
    assert(document_nodes(root, p) == head + (element_nodes(p) + tail));
    lemma_named_behind(head, element_nodes(p) + tail, p[k].name);
}

/// The first element with a name is the one whose text is read, with anything behind it.
proof fn lemma_text_of_element(
    p: Seq<Piece>,
    k: int,
    behind: Seq<(Seq<char>, Option<Seq<char>>)>,
)
    requires
        0 <= k < p.len(),
        p[k].name.len() > 0,
        forall|j: int| 0 <= j < k ==> (#[trigger] p[j]).name != p[k].name,
    ensures
        text_named(element_nodes(p) + behind, p[k].name) == p[k].text,
    decreases p.len(),
{
    let name = p[k].name;
    let e = p.last();
    let q = p.drop_last();
    let node = (e.name, text_if_any(e.text));
    if k == p.len() - 1 {
        let before = element_nodes(q) + text_nodes(e.lead);
        let after = text_nodes(e.text) + behind;
        assert forall|j: int| 0 <= j < q.len() implies (#[trigger] q[j]).name != name by {
            assert(q[j] == p[j]);
        }
        lemma_not_named(q, name);
        assert forall|i: int| 0 <= i < before.len() implies (#[trigger] before[i]).0 != name by {
            if i < element_nodes(q).len() {
                assert(before[i] == element_nodes(q)[i]);
            }
        }
        assert(element_nodes(p) + behind == before + (seq![node] + after));
        lemma_named_behind(before, seq![node] + after, name);
        assert((seq![node] + after)[0] == node);
    } else {
        let rest = text_nodes(e.lead) + seq![node] + text_nodes(e.text) + behind;
        assert(element_nodes(p) + behind == element_nodes(q) + rest);
        assert(q[k] == p[k]);
        assert forall|j: int| 0 <= j < k implies (#[trigger] q[j]).name != q[k].name by {
            assert(q[j] == p[j]);
        }
        lemma_text_of_element(q, k, rest);
    }
}

/// Elements with other names make no node with this name.
proof fn lemma_not_named(p: Seq<Piece>, name: Seq<char>)
    requires
        name.len() > 0,
        forall|j: int| 0 <= j < p.len() ==> (#[trigger] p[j]).name != name,
    ensures
        forall|i: int|
            0 <= i < element_nodes(p).len() ==> (#[trigger] element_nodes(p)[i]).0 != name,
    decreases p.len(),
{
    if p.len() > 0 {
        let q = p.drop_last();
        assert forall|j: int| 0 <= j < q.len() implies (#[trigger] q[j]).name != name by {
            assert(q[j] == p[j]);
        }
        lemma_not_named(q, name);
        assert(p[p.len() - 1].name != name);
        assert forall|i: int| 0 <= i < element_nodes(p).len() implies (
        #[trigger] element_nodes(p)[i]).0 != name by {
            if i < element_nodes(q).len() {
                assert(element_nodes(p)[i] == element_nodes(q)[i]);
            }
        }
    }
}

/// Nodes with other names are passed over.
proof fn lemma_named_behind(
    front: Seq<(Seq<char>, Option<Seq<char>>)>,
    behind: Seq<(Seq<char>, Option<Seq<char>>)>,
    name: Seq<char>,
)
    requires
        forall|i: int| 0 <= i < front.len() ==> (#[trigger] front[i]).0 != name,
    ensures
        text_named(front + behind, name) == text_named(behind, name),
    decreases front.len(),
{
    if front.len() == 0 {
        assert(front + behind == behind);
    } else {
        let rest = front.skip(1);
        assert((front + behind)[0] == front[0]);
        assert((front + behind).skip(1) == rest + behind);
        assert forall|i: int| 0 <= i < rest.len() implies (#[trigger] rest[i]).0 != name by {
            assert(rest[i] == front[i + 1]);
        }
        lemma_named_behind(rest, behind, name);
    }
}

/// A contact document is read as it was written.
proof fn lemma_plain_contact(
    station: Seq<char>,
    callsign: Seq<char>,
    contest: Seq<char>,
    c: Logged,
    n1mm_id: Seq<char>,
)
    requires
        can_be_broadcast(station, callsign, contest, c, n1mm_id),
    ensures
        is_plain_document(
            "contactinfo"@,
            contact_pieces(station, callsign, contest, c, n1mm_id),
        ),
{
    lemma_plain_names_1();
    lemma_plain_names_2();
    lemma_plain_names_3();
    lemma_plain_names_4();
    lemma_plain_names_5();
    lemma_plain_names_6();
    lemma_plain_values(c);
    lemma_plain_literals();
    let p = contact_pieces(station, callsign, contest, c, n1mm_id);
    reveal_with_fuel(first_plain, 47);
    lemma_first_plain(p, 46);
}

/// The first `k` elements are plain.
spec fn first_plain(p: Seq<Piece>, k: int) -> bool
    decreases k,
{
    k <= 0 || (is_plain(p[k - 1]) && first_plain(p, k - 1))
}

/// The first `k` elements are plain.
proof fn lemma_first_plain(p: Seq<Piece>, k: int)
    requires
        first_plain(p, k),
    ensures
        forall|i: int| 0 <= i < k ==> is_plain(#[trigger] p[i]),
    decreases k,
{
    if k > 0 {
        lemma_first_plain(p, k - 1);
    }
}

/// The texts that are made of a contact are plain.
proof fn lemma_plain_values(c: Logged)
    ensures
        is_plain_text(band_mhz(c.band)),
        is_plain_text(tens_of_hertz(c.band)),
        is_plain_text(n1mm_mode(c.mode)),
        is_plain_text(letters(c.call)),
{
    crate::band::lemma_edge_text(c.band);
    reveal_strlit("CW");
    reveal_strlit("DIG");
    reveal_strlit("USB");
    lemma_simple_text(band_mhz(c.band));
    lemma_simple_text(n1mm_mode(c.mode));
    crate::number::lemma_decimal_digits((center_khz(c.band) * 100) as nat);
    lemma_simple_text(tens_of_hertz(c.band));
    lemma_only_letters(c.call);
    lemma_simple_text(letters(c.call));
}

/// The texts that stand in every contact document are plain.
proof fn lemma_plain_literals()
    ensures
        is_plain_text(Seq::empty()),
        is_plain_text("\n\t"@),
        is_plain_text("N1MM"@),
        is_plain_text("0"@),
        is_plain_text("1"@),
        is_plain_text("5"@),
        is_plain_text("59"@),
        is_plain_text("K"@),
        is_plain_text("NA"@),
        is_plain_text("True"@),
        is_plain_text("1A MDC"@),
{
    reveal_strlit("\n\t");
    reveal_strlit("N1MM");
    reveal_strlit("0");
    reveal_strlit("1");
    reveal_strlit("5");
    reveal_strlit("59");
    reveal_strlit("K");
    reveal_strlit("NA");
    reveal_strlit("True");
    reveal_strlit("1A MDC");
    assert forall|i: int| !#[trigger] closes_data("\n\t"@, i) by {}
    lemma_simple_text(Seq::empty());
    lemma_simple_text("N1MM"@);
    lemma_simple_text("0"@);
    lemma_simple_text("1"@);
    lemma_simple_text("5"@);
    lemma_simple_text("59"@);
    lemma_simple_text("K"@);
    lemma_simple_text("NA"@);
    lemma_simple_text("True"@);
    lemma_simple_text("1A MDC"@);
}

/// Letters, digits, points and spaces are plain text.
proof fn lemma_simple_text(s: Seq<char>)
    requires
        forall|i: int|
            0 <= i < s.len() ==> is_letter(#[trigger] s[i]) || is_digit(s[i]) || s[i] == '.' || s[i]
                == ' ',
    ensures
        is_plain_text(s),
{
    assert forall|i: int| 0 <= i < s.len() implies is_plain_char(#[trigger] s[i]) by {}
    assert forall|i: int| !#[trigger] closes_data(s, i) by {}
}

/// `letters` gives letters.
proof fn lemma_only_letters(s: Seq<char>)
    ensures
        forall|i: int| 0 <= i < letters(s).len() ==> is_letter(#[trigger] letters(s)[i]),
    decreases s.len(),
{
    if s.len() > 0 && is_letter(s[0]) {
        lemma_only_letters(s.skip(1));
        let t = letters(s);
        assert forall|i: int| 0 <= i < t.len() implies is_letter(#[trigger] t[i]) by {
            if i > 0 {
                assert(t[i] == letters(s.skip(1))[i - 1]);
            }
        }
    }
}

/// The names of elements are plain.
proof fn lemma_plain_names_1()
    ensures
        is_plain_name("contactinfo"@),
        is_plain_name("app"@),
        is_plain_name("contestname"@),
        is_plain_name("contestnr"@),
        is_plain_name("timestamp"@),
        is_plain_name("mycall"@),
        is_plain_name("band"@),
        is_plain_name("rxfreq"@),
        is_plain_name("txfreq"@),
{
    reveal_strlit("contactinfo");
    reveal_strlit("app");
    reveal_strlit("contestname");
    reveal_strlit("contestnr");
    reveal_strlit("timestamp");
    reveal_strlit("mycall");
    reveal_strlit("band");
    reveal_strlit("rxfreq");
    reveal_strlit("txfreq");
}

proof fn lemma_plain_names_2()
    ensures
        is_plain_name("operator"@),
        is_plain_name("mode"@),
        is_plain_name("call"@),
        is_plain_name("countryprefix"@),
        is_plain_name("wpxprefix"@),
        is_plain_name("stationprefix"@),
        is_plain_name("continent"@),
        is_plain_name("snt"@),
{
    reveal_strlit("operator");
    reveal_strlit("mode");
    reveal_strlit("call");
    reveal_strlit("countryprefix");
    reveal_strlit("wpxprefix");
    reveal_strlit("stationprefix");
    reveal_strlit("continent");
    reveal_strlit("snt");
}

proof fn lemma_plain_names_3()
    ensures
        is_plain_name("sntnr"@),
        is_plain_name("rcv"@),
        is_plain_name("rcvnr"@),
        is_plain_name("gridsquare"@),
        is_plain_name("exchange1"@),
        is_plain_name("section"@),
        is_plain_name("comment"@),
        is_plain_name("qth"@),
{
    reveal_strlit("sntnr");
    reveal_strlit("rcv");
    reveal_strlit("rcvnr");
    reveal_strlit("gridsquare");
    reveal_strlit("exchange1");
    reveal_strlit("section");
    reveal_strlit("comment");
    reveal_strlit("qth");
}

proof fn lemma_plain_names_4()
    ensures
        is_plain_name("name"@),
        is_plain_name("power"@),
        is_plain_name("misctext"@),
        is_plain_name("zone"@),
        is_plain_name("prec"@),
        is_plain_name("ck"@),
        is_plain_name("ismultiplier1"@),
        is_plain_name("ismultiplier2"@),
{
    reveal_strlit("name");
    reveal_strlit("power");
    reveal_strlit("misctext");
    reveal_strlit("zone");
    reveal_strlit("prec");
    reveal_strlit("ck");
    reveal_strlit("ismultiplier1");
    reveal_strlit("ismultiplier2");
}

proof fn lemma_plain_names_5()
    ensures
        is_plain_name("ismultiplier3"@),
        is_plain_name("points"@),
        is_plain_name("radionr"@),
        is_plain_name("run1run2"@),
        is_plain_name("RoverLocation"@),
        is_plain_name("RadioInterfaced"@),
        is_plain_name("NetworkedCompNr"@),
        is_plain_name("IsOriginal"@),
{
    reveal_strlit("ismultiplier3");
    reveal_strlit("points");
    reveal_strlit("radionr");
    reveal_strlit("run1run2");
    reveal_strlit("RoverLocation");
    reveal_strlit("RadioInterfaced");
    reveal_strlit("NetworkedCompNr");
    reveal_strlit("IsOriginal");
}

proof fn lemma_plain_names_6()
    ensures
        is_plain_name("NetBiosName"@),
        is_plain_name("IsRunQSO"@),
        is_plain_name("StationName"@),
        is_plain_name("ID"@),
        is_plain_name("IsClaimedQso"@),
        is_plain_name("SentExchange"@),
{
    reveal_strlit("NetBiosName");
    reveal_strlit("IsRunQSO");
    reveal_strlit("StationName");
    reveal_strlit("ID");
    reveal_strlit("IsClaimedQso");
    reveal_strlit("SentExchange");
}

// ---------------------------------------------------------------------------
// Laws
// ---------------------------------------------------------------------------

/// The frequency that a contact is broadcast with is a hundred times the kilohertz in the middle
/// of its band, and names that band where a band is read from it; that of a band which the
/// database does not know names 20M.
pub proof fn broadcast_frequency_names_band(band: Seq<char>)
    ensures
        crate::number::number(tens_of_hertz(band)) == Some(
            Number::Finite { negative: false, digits: (100 * center_khz(band)) as nat, exponent: 0 },
        ),
        crate::band::is_band(band) ==> band_named(tens_of_hertz(band)) == Some(band),
        !crate::band::is_band(band) ==> band_named(tens_of_hertz(band)) == Some("20M"@),
{
    let n = (center_khz(band) * 100) as nat;
    crate::number::lemma_decimal_digits(n);
    crate::number::lemma_number_of_digits(decimal(n));
    crate::band::tens_of_hertz_name_band(center_khz(band));
    crate::band::center_lies_in_band(band);
}

/// Elements are written one after the other: each is what stands in front of it, its start tag,
/// its text and its end tag.
pub proof fn elements_are_written_one_by_one(p: Seq<Piece>, q: Seq<Piece>, e: Piece)
    ensures
        elements(p + q) == elements(p) + elements(q),
        elements(seq![e]) == e.lead + "<"@ + e.name + ">"@ + e.text + "</"@ + e.name + ">"@,
    decreases q.len(),
{
    assert(seq![e].drop_last() =~= Seq::<Piece>::empty());
    assert(elements(seq![e].drop_last()) == Seq::<char>::empty());
    assert(seq![e].last() == e);
    assert(Seq::<char>::empty() + element(e) =~= element(e));
    if q.len() == 0 {
        assert(p + q =~= p);
        assert(elements(p) + elements(q) =~= elements(p));
    } else {
        let r = q.drop_last();
        elements_are_written_one_by_one(p, r, e);
        assert((p + q).drop_last() =~= p + r);
        assert((p + q).last() == q.last());
        assert(elements(p) + (elements(r) + element(q.last())) =~= (elements(p) + elements(r))
            + element(q.last()));
    }
}

/// A contact document has 46 elements. These tell the contact, the station and the identity; the
/// others, all names and all that stands in front of an element are the same in every contact
/// document.
pub proof fn contact_elements_tell(
    station: Seq<char>,
    callsign: Seq<char>,
    contest: Seq<char>,
    c: Logged,
    n1mm_id: Seq<char>,
    other_station: Seq<char>,
    other_callsign: Seq<char>,
    other_contest: Seq<char>,
    d: Logged,
    other_id: Seq<char>,
)
    ensures
        ({
            let p = contact_pieces(station, callsign, contest, c, n1mm_id);
            let q = contact_pieces(other_station, other_callsign, other_contest, d, other_id);
            &&& p.len() == 46 && q.len() == 46
            &&& forall|i: int|
                0 <= i < 46 ==> (#[trigger] p[i]).name == q[i].name && p[i].lead == q[i].lead
            &&& p[1].text == contest && p[3].text == contact_timestamp(c)
            &&& p[4].text == callsign && p[5].text == band_mhz(c.band)
            &&& p[6].text == tens_of_hertz(c.band) && p[7].text == tens_of_hertz(c.band)
            &&& p[8].text == c.operator && p[9].text == n1mm_mode(c.mode)
            &&& p[10].text == c.call && p[12].text == letters(c.call)
            &&& p[13].text == callsign && p[18].text == c.class
            &&& p[20].text == c.class && p[21].text == c.section
            &&& p[40].text == station && p[42].text == station
            &&& p[43].text == n1mm_id
            &&& p[0].text == q[0].text && p[2].text == q[2].text && p[11].text == q[11].text && p[14].text == q[14].text
            &&& p[15].text == q[15].text && p[16].text == q[16].text && p[17].text == q[17].text && p[19].text == q[19].text
            &&& p[22].text == q[22].text && p[23].text == q[23].text && p[24].text == q[24].text && p[25].text == q[25].text
            &&& p[26].text == q[26].text && p[27].text == q[27].text && p[28].text == q[28].text && p[29].text == q[29].text
            &&& p[30].text == q[30].text && p[31].text == q[31].text && p[32].text == q[32].text && p[33].text == q[33].text
            &&& p[34].text == q[34].text && p[35].text == q[35].text && p[36].text == q[36].text && p[37].text == q[37].text
            &&& p[38].text == q[38].text && p[39].text == q[39].text && p[41].text == q[41].text && p[44].text == q[44].text
            &&& p[45].text == q[45].text
        }),
{
    let p = contact_pieces(station, callsign, contest, c, n1mm_id);
    let q = contact_pieces(other_station, other_callsign, other_contest, d, other_id);
    reveal_with_fuel(same_frame, 47);
    lemma_same_frame(p, q, 46);
}

/// The first `k` elements have the same names, and the same in front of them.
spec fn same_frame(p: Seq<Piece>, q: Seq<Piece>, k: int) -> bool
    decreases k,
{
    k <= 0 || (p[k - 1].name == q[k - 1].name && p[k - 1].lead == q[k - 1].lead && same_frame(
        p,
        q,
        k - 1,
    ))
}

/// The first `k` elements have the same names, and the same in front of them.
proof fn lemma_same_frame(p: Seq<Piece>, q: Seq<Piece>, k: int)
    requires
        same_frame(p, q, k),
    ensures
        forall|i: int|
            0 <= i < k ==> (#[trigger] p[i]).name == q[i].name && p[i].lead == q[i].lead,
    decreases k,
{
    if k > 0 {
        lemma_same_frame(p, q, k - 1);
    }
}

/// The first node with a name is the one whose text counts; where there is none, or it has no
/// text, there is none.
pub proof fn first_node_counts(
    nodes: Seq<(Seq<char>, Option<Seq<char>>)>,
    k: int,
    name: Seq<char>,
)
    requires
        0 <= k <= nodes.len(),
        forall|i: int| 0 <= i < k ==> (#[trigger] nodes[i]).0 != name,
    ensures
        k == nodes.len() ==> text_named(nodes, name) == Seq::<char>::empty(),
        k < nodes.len() && nodes[k].0 == name ==> text_named(nodes, name) == (match nodes[k].1 {
            Some(text) => text,
            None => Seq::empty(),
        }),
{
    let front = nodes.take(k);
    let behind = nodes.skip(k);
    assert(front + behind == nodes);
    assert forall|i: int| 0 <= i < front.len() implies (#[trigger] front[i]).0 != name by {
        assert(front[i] == nodes[i]);
    }
    lemma_named_behind(front, behind, name);
    if k < nodes.len() {
        assert(behind[0] == nodes[k]);
    }
}

/// What a document tells, whatever else stands in it: each part of the contact has an element of
/// its own, and a contact is there if and only if the root element is a `contactinfo`, call and
/// identity are not empty, and the band is one.
pub proof fn contact_is_told_by_its_elements(
    root: Seq<char>,
    nodes: Seq<(Seq<char>, Option<Seq<char>>)>,
)
    ensures
        contact_in_tree((root, nodes)) is Some <==> root == "contactinfo"@ && trimmed(
            text_named(nodes, "call"@),
        ).len() > 0 && trimmed(text_named(nodes, "ID"@)).len() > 0 && band_named(
            text_named(nodes, "band"@),
        ) is Some,
        contact_in_tree((root, nodes)) matches Some(c) ==> {
            &&& c.call == uppercase(trimmed(text_named(nodes, "call"@)))
            &&& Some(c.band) == band_named(text_named(nodes, "band"@))
            &&& c.mode == log_mode(text_named(nodes, "mode"@))
            &&& c.class == uppercase(trimmed(text_named(nodes, "exchange1"@)))
            &&& c.section == uppercase(trimmed(text_named(nodes, "section"@)))
            &&& c.operator == uppercase(trimmed(text_named(nodes, "operator"@)))
            &&& (c.date, c.time) == date_and_time(trimmed(text_named(nodes, "timestamp"@)))
            &&& c.n1mm_id == trimmed(text_named(nodes, "ID"@))
        },
{
    crate::band::white_space_does_not_matter(text_named(nodes, "band"@));
    crate::band::white_space_does_not_matter(text_named(nodes, "mode"@));
}

/// Of what is no contact, the name of the root element is told, and of what is no document, that
/// it is none.
pub proof fn root_is_told(xml: Seq<char>, root: Seq<char>)
    ensures
        xml_tree(xml) matches Some(tree) && tree.0 == root ==> root_named(xml) == root,
        xml_tree(xml) is None ==> root_named(xml) == "<parse error>"@,
{
}

/// A contact document is the declaration, and a `contactinfo` element with the elements in it.
pub proof fn contact_document_is_one_element(
    station: Seq<char>,
    callsign: Seq<char>,
    contest: Seq<char>,
    c: Logged,
    n1mm_id: Seq<char>,
)
    ensures
        contact_document(station, callsign, contest, c, n1mm_id)
            == "<?xml version=\"1.0\" encoding=\"utf-8\"?>\n<"@ + "contactinfo"@ + ">"@ + elements(
            contact_pieces(station, callsign, contest, c, n1mm_id),
        ) + "\n</"@ + "contactinfo"@ + ">"@,
{
}

/// A document says what its parts are.
pub proof fn document_says_its_parts(d: XmlDoc, n: XmlNode, e: Element, o: Option<XmlDoc>)
    ensures
        d@.0 == d.root@,
        d@.1.len() == d.nodes@.len(),
        forall|i: int| 0 <= i < d.nodes@.len() ==> #[trigger] d@.1[i] == node_view(d.nodes@[i]),
        node_view(n).0 == n.name@,
        n.text is None <==> node_view(n).1 is None,
        n.text is Some ==> node_view(n).1->0 == n.text->0@,
        e@.lead == e.lead@ && e@.name == e.name@ && e@.text == e.text@,
        o is None <==> doc_view(o) is None,
        o is Some ==> doc_view(o)->0 == o->0@,
{
}

/// What is in no document is no contact, and what is in a document is what its nodes tell.
pub proof fn contact_is_in_the_document(xml: Seq<char>)
    ensures
        xml_tree(xml) is None ==> contact_in_xml(xml) is None,
        xml_tree(xml) matches Some(tree) ==> contact_in_xml(xml) == contact_in_tree(tree),
{
}

} // verus!
