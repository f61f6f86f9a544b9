//! A connection to another station: what to do on each thing that happens to it.

use vstd::prelude::*;

use crate::config::Config;
use crate::contact::{
    as_received, contact_in_fields, parse_tcp_qso, sendable, Contact, Logged, XmlContact,
};
use crate::message::{
    field_or_empty, framed, handle_incoming, message_comes_back, message_in, parse_frame, reply,
};
use crate::text::{free_of, same, trimmed, views};
use crate::watcher::{goes_out, sent_contact_is_received, Outgoing};

verus! {

// ---------------------------------------------------------------------------
// Events and actions
// ---------------------------------------------------------------------------

/// What happens to a connection.
#[derive(Debug)]
pub enum Event {
    /// Nothing is being written: the connection was just opened, or a write was done.
    Ready,
    /// A write failed.
    WriteFailed,
    /// A message is to go out.
    Outbound(String),
    /// A frame came in.
    Frame(String),
    /// The other station closed the connection.
    Closed,
    /// Reading failed.
    ReadFailed,
}

/// What to do next.
#[derive(Debug)]
pub enum Action {
    /// Write a message.
    Send(String),
    /// Enter the connection among those that messages go out on.
    Register,
    /// Wait for the next event.
    Wait,
    /// Enter a contact in the database, and wait for the next event.
    Store(XmlContact),
    /// Note a frame that cannot be read, and wait for the next event.
    Unparseable,
    /// Leave the connection.
    Leave {
        /// Take it out of those that messages go out on.
        unregister: bool,
        /// Take its address out of those that are connected to.
        release: bool,
    },
}

/// What an event says.
pub enum Happening {
    Ready,
    WriteFailed,
    Outbound(Seq<char>),
    Frame(Seq<char>),
    Closed,
    ReadFailed,
}

/// What an action says.
pub enum Deed {
    Send(Seq<char>),
    Register,
    Wait,
    Store(Contact),
    Unparseable,
    Leave { unregister: bool, release: bool },
}

impl View for Event {
    type V = Happening;

    open spec fn view(&self) -> Happening {
        match self {
            Event::Ready => Happening::Ready,
            Event::WriteFailed => Happening::WriteFailed,
            Event::Outbound(m) => Happening::Outbound(m@),
            Event::Frame(raw) => Happening::Frame(raw@),
            Event::Closed => Happening::Closed,
            Event::ReadFailed => Happening::ReadFailed,
        }
    }
}

impl View for Action {
    type V = Deed;

    open spec fn view(&self) -> Deed {
        match self {
            Action::Send(m) => Deed::Send(m@),
            Action::Register => Deed::Register,
            Action::Wait => Deed::Wait,
            Action::Store(c) => Deed::Store(c@),
            Action::Unparseable => Deed::Unparseable,
            Action::Leave { unregister, release } => Deed::Leave {
                unregister: *unregister,
                release: *release,
            },
        }
    }
}

// ---------------------------------------------------------------------------
// Frames that came in
// ---------------------------------------------------------------------------

/// What a station does with a frame: a contact goes to the database, and other messages are
/// answered if there is an answer to them.
pub open spec fn on_frame(raw: Seq<char>, station: Seq<char>) -> Deed {
    match message_in(raw) {
        Some(m) => if m.command == "QSO"@ {
            match contact_in_fields(m.fields) {
                Some(c) => Deed::Store(c),
                None => Deed::Wait,
            }
        } else {
            match reply(m, station) {
                Some(answer) => Deed::Send(answer),
                None => Deed::Wait,
            }
        },
        None => Deed::Unparseable,
    }
}

/// What to do with a frame.
pub fn take_frame(raw: &str, cfg: &Config) -> (r: Action)
    ensures
        r@ == on_frame(raw@, cfg.station@),
{
    match parse_frame(raw) {
        Some(msg) => if same(msg.command.as_str(), "QSO") {
            match parse_tcp_qso(msg.fields.as_slice()) {
                Some(contact) => Action::Store(contact),
                None => Action::Wait,
            }
        } else {
            match handle_incoming(&msg, cfg) {
                Some(answer) => Action::Send(answer),
                None => Action::Wait,
            }
        },
        None => Action::Unparseable,
    }
}

// ---------------------------------------------------------------------------
// The session
// ---------------------------------------------------------------------------

/// How far a connection is: the messages that still open it, whether it was entered among
/// those that messages go out on, and whether this station opened it.
#[verifier::ext_equal]
pub struct Progress {
    pub greeting: Seq<Seq<char>>,
    pub registered: bool,
    pub outbound: bool,
}

/// What to do on an event, and how far the connection is then.
pub open spec fn on_event(p: Progress, e: Happening, station: Seq<char>) -> (Progress, Deed) {
    let leave = Deed::Leave { unregister: p.registered, release: p.outbound };
    match e {
        Happening::Ready => if p.greeting.len() > 0 {
            (Progress { greeting: p.greeting.skip(1), ..p }, Deed::Send(p.greeting[0]))
        } else if !p.registered {
            (Progress { registered: true, ..p }, Deed::Register)
        } else {
            (p, Deed::Wait)
        },
        Happening::Outbound(m) => (p, Deed::Send(m)),
        Happening::Frame(raw) => (p, on_frame(raw, station)),
        Happening::WriteFailed => (p, leave),
        Happening::Closed => (p, leave),
        Happening::ReadFailed => (p, leave),
    }
}

/// A connection to another station.
#[derive(Debug)]
pub struct Session {
    greeting: Vec<String>,
    registered: bool,
    outbound: bool,
}

impl View for Session {
    type V = Progress;

    closed spec fn view(&self) -> Progress {
        Progress {
            greeting: views(self.greeting@),
            registered: self.registered,
            outbound: self.outbound,
        }
    }
}

impl Session {
    /// A connection that was just opened, by this station or not, with the messages that go
    /// out first.
    pub fn new(greeting: Vec<String>, outbound: bool) -> (r: Self)
        ensures
            r@ == (Progress { greeting: views(greeting@), registered: false, outbound }),
    {
        Session { greeting, registered: false, outbound }
    }

    /// What to do on an event.
    pub fn step(&mut self, event: Event, cfg: &Config) -> (r: Action)
        ensures
            (final(self)@, r@) == on_event(old(self)@, event@, cfg.station@),
    {
        match event {
            Event::Ready => {
                if self.greeting.len() > 0 {
                    let message: String = self.greeting.remove(0);
                    assert(self@.greeting =~= old(self)@.greeting.skip(1));
                    Action::Send(message)
                } else if !self.registered {
                    self.registered = true;
                    Action::Register
                } else {
                    Action::Wait
                }
            },
            Event::Outbound(message) => Action::Send(message),
            Event::Frame(raw) => take_frame(raw.as_str(), cfg),
            Event::WriteFailed => self.leave(),
            Event::Closed => self.leave(),
            Event::ReadFailed => self.leave(),
        }
    }

    /// Leaves the connection: takes it out of those that messages go out on, if it was entered
    /// there, and releases its address, if this station opened it.
    fn leave(&self) -> (r: Action)
        ensures
            r@ == (Deed::Leave { unregister: self@.registered, release: self@.outbound }),
    {
        Action::Leave { unregister: self.registered, release: self.outbound }
    }
}

// ---------------------------------------------------------------------------
// Laws
// ---------------------------------------------------------------------------

/// How far a connection is after events in a row, and what was done on each.
pub open spec fn run(p: Progress, events: Seq<Happening>, station: Seq<char>) -> (
    Progress,
    Seq<Deed>,
)
    decreases events.len(),
{
    if events.len() == 0 {
        (p, Seq::empty())
    } else {
        let (q, deeds) = run(p, events.drop_last(), station);
        let (last, deed) = on_event(q, events.last(), station);
        (last, deeds.push(deed))
    }
}

/// A new connection sends the messages that open it, one after the other, and is then entered
/// among those that messages go out on.
pub proof fn greeting_goes_out_first(greeting: Seq<Seq<char>>, outbound: bool, station: Seq<char>)
    ensures
        ({
            let start = Progress { greeting, registered: false, outbound };
            let ready = Seq::new(greeting.len() + 1, |i: int| Happening::Ready);
            let (end, deeds) = run(start, ready, station);
            &&& deeds == greeting.map_values(|m: Seq<char>| Deed::Send(m)).push(Deed::Register)
            &&& end == Progress { greeting: Seq::empty(), registered: true, outbound }
        }),
{
    let n = greeting.len();
    let start = Progress { greeting, registered: false, outbound };
    let ready = Seq::new(n + 1, |i: int| Happening::Ready);
    lemma_greeting(greeting, outbound, station, n);
    assert(ready.drop_last() =~= Seq::new(n, |i: int| Happening::Ready));
    assert(greeting.skip(n as int) =~= Seq::empty());
    assert(greeting.take(n as int) =~= greeting);
}

proof fn lemma_greeting(
    greeting: Seq<Seq<char>>,
    outbound: bool,
    station: Seq<char>,
    k: nat,
)
    requires
        k <= greeting.len(),
    ensures
        run(
            Progress { greeting, registered: false, outbound },
            Seq::new(k, |i: int| Happening::Ready),
            station,
        ) == (
            Progress { greeting: greeting.skip(k as int), registered: false, outbound },
            greeting.take(k as int).map_values(|m: Seq<char>| Deed::Send(m)),
        ),
    decreases k,
{
    let start = Progress { greeting, registered: false, outbound };
    let ready = Seq::new(k, |i: int| Happening::Ready);
    if k == 0 {
        assert(greeting.skip(0) =~= greeting);
        assert(greeting.take(0).map_values(|m: Seq<char>| Deed::Send(m)) =~= Seq::empty());
    } else {
        let j = (k - 1) as nat;
        lemma_greeting(greeting, outbound, station, j);
        assert(ready.drop_last() =~= Seq::new(j, |i: int| Happening::Ready));
        let left = greeting.skip(j as int);
        assert(left[0] == greeting[j as int]);
        assert(left.skip(1) =~= greeting.skip(k as int));
        assert(greeting.take(k as int).map_values(|m: Seq<char>| Deed::Send(m))
            =~= greeting.take(j as int).map_values(|m: Seq<char>| Deed::Send(m)).push(
            Deed::Send(greeting[j as int]),
        ));
    }
}

/// A connection is entered among those that messages go out on at most once. When it is left,
/// for whatever reason, it is taken out if and only if it was entered, and its address is
/// released if and only if this station opened it.
pub proof fn what_was_entered_is_taken_out(
    greeting: Seq<Seq<char>>,
    outbound: bool,
    events: Seq<Happening>,
    station: Seq<char>,
)
    ensures
        ({
            let start = Progress { greeting, registered: false, outbound };
            let (end, deeds) = run(start, events, station);
            let entered = exists|i: int| 0 <= i < deeds.len() && #[trigger] deeds[i] is Register;
            &&& deeds.len() == events.len()
            &&& end.registered == entered
            &&& end.outbound == outbound
            &&& forall|i: int, j: int|
                0 <= i < j < deeds.len() && #[trigger] deeds[i] is Register ==> !(
                #[trigger] deeds[j] is Register)
            &&& forall|e: Happening|
                e is WriteFailed || e is Closed || e is ReadFailed ==> #[trigger] on_event(
                    end,
                    e,
                    station,
                ).1 == (Deed::Leave { unregister: entered, release: outbound })
        }),
    decreases events.len(),
{
    let start = Progress { greeting, registered: false, outbound };
    let (end, deeds) = run(start, events, station);
    if events.len() > 0 {
        let front = events.drop_last();
        what_was_entered_is_taken_out(greeting, outbound, front, station);
        let (q, before) = run(start, front, station);
        let deed = on_event(q, events.last(), station).1;
        assert(deeds == before.push(deed));
        assert forall|i: int| 0 <= i < before.len() implies deeds[i] == before[i] by {}
        if q.registered {
            let k = choose|k: int| 0 <= k < before.len() && #[trigger] before[k] is Register;
            assert(deeds[k] is Register);
        }
        if deed is Register {
            assert(deeds[before.len() as int] is Register);
        }
        if end.registered && !q.registered {
            assert(deed is Register);
        }
        if exists|i: int| 0 <= i < deeds.len() && #[trigger] deeds[i] is Register {
            let k = choose|k: int| 0 <= k < deeds.len() && #[trigger] deeds[k] is Register;
            if k < before.len() {
                assert(before[k] is Register);
            }
        }
        assert forall|i: int, j: int|
            0 <= i < j < deeds.len() && #[trigger] deeds[i] is Register implies !(
        #[trigger] deeds[j] is Register) by {
            assert(before[i] is Register);
            if j < before.len() {
                assert(before[j] == deeds[j]);
            }
        }
    }
}

/// A contact that a station sends is stored by the station that it comes to, under the
/// identity that it was stamped with; one without a call is passed over.
pub proof fn sent_contact_is_stored(
    o: Outgoing,
    cfg: Config,
    c: Logged,
    time: int,
    receiver: Seq<char>,
)
    requires
        goes_out(o, cfg, c, time),
        !cfg.station@.contains('%'),
        !cfg.callsign@.contains('%'),
        !cfg.contest@.contains('%'),
        sendable(c),
    ensures
        on_frame(o.qso@, receiver) == (if trimmed(c.call).len() == 0 {
            Deed::Wait
        } else {
            Deed::Store(as_received(c, o.n1mm_id@))
        }),
{
    sent_contact_is_received(o, cfg, c, time);
}

/// A message that is to go out is sent unchanged on every connection, whoever opened it and
/// however far it is, and leaves the connection as it was.
pub proof fn outbound_is_sent(p: Progress, message: Seq<char>, station: Seq<char>)
    ensures
        on_event(p, Happening::Outbound(message), station) == (p, Deed::Send(message)),
{
}

/// In a row of events, every message that is to go out is sent in its place.
pub proof fn every_outbound_is_sent(p: Progress, events: Seq<Happening>, station: Seq<char>)
    ensures
        ({
            let deeds = run(p, events, station).1;
            &&& deeds.len() == events.len()
            &&& forall|i: int|
                0 <= i < events.len() && (#[trigger] events[i] is Outbound) ==> deeds[i]
                    == Deed::Send(events[i]->Outbound_0)
        }),
    decreases events.len(),
{
    if events.len() > 0 {
        let front = events.drop_last();
        every_outbound_is_sent(p, front, station);
        let q = run(p, front, station).0;
        let before = run(p, front, station).1;
        let deeds = run(p, events, station).1;
        assert forall|i: int| 0 <= i < events.len() && (#[trigger] events[i] is Outbound) implies
            deeds[i] == Deed::Send(events[i]->Outbound_0) by {
            if i < front.len() {
                assert(front[i] == events[i]);
                assert(deeds[i] == before[i]);
            } else {
                outbound_is_sent(q, events[i]->Outbound_0, station);
            }
        }
    }
}

/// A frame is acted on alike on every connection, whoever opened it and however far it is, and
/// leaves the connection as it was.
pub proof fn frames_are_acted_on_alike(
    p: Progress,
    q: Progress,
    raw: Seq<char>,
    station: Seq<char>,
)
    ensures
        on_event(p, Happening::Frame(raw), station).0 == p,
        on_event(p, Happening::Frame(raw), station).1 == on_event(
            q,
            Happening::Frame(raw),
            station,
        ).1,
        on_event(p, Happening::Frame(raw), station).1 == on_frame(raw, station),
{
}

/// A connection that was greeted and entered waits when nothing is being written.
pub proof fn greeted_connection_waits(p: Progress, station: Seq<char>)
    requires
        p.greeting.len() == 0,
        p.registered,
    ensures
        on_event(p, Happening::Ready, station) == (p, Deed::Wait),
{
}

/// A message with a contact stores it; one whose contact cannot be read is passed over. An echo
/// request is answered. Every other message is passed over, and what is no message is noted.
pub proof fn frames_are_acted_on(
    sender: Seq<char>,
    command: Seq<char>,
    fields: Seq<Seq<char>>,
    raw: Seq<char>,
    station: Seq<char>,
)
    requires
        !sender.contains('%'),
        !command.contains('%'),
        free_of(fields, '%'),
    ensures
        ({
            let deed = on_frame(framed(sender, command, fields), station);
            &&& command == "QSO"@ ==> deed == (match contact_in_fields(fields.push(Seq::empty())) {
                Some(c) => Deed::Store(c),
                None => Deed::Wait,
            })
            &&& command == "ECHOREQ"@ && fields.len() == 2 ==> deed == Deed::Send(
                framed(station, "ECHO"@, fields),
            )
            &&& command != "QSO"@ && command != "ECHOREQ"@ ==> deed == Deed::Wait
        }),
        message_in(raw) is None ==> on_frame(raw, station) == Deed::Unparseable,
{
    reveal_strlit("QSO");
    reveal_strlit("ECHOREQ");
    assert("QSO"@.len() != "ECHOREQ"@.len());
    message_comes_back(sender, command, fields);
    if fields.len() == 2 {
        let all = fields.push(Seq::empty());
        assert(seq![field_or_empty(all, 0), field_or_empty(all, 1)] =~= fields);
    }
}

/// What is done with a frame is up to the message in it alone.
pub proof fn message_decides(a: Seq<char>, b: Seq<char>, station: Seq<char>)
    requires
        message_in(a) == message_in(b),
    ensures
        on_frame(a, station) == on_frame(b, station),
        message_in(a) matches Some(m) ==> on_frame(a, station) == (if m.command == "QSO"@ {
            match contact_in_fields(m.fields) {
                Some(c) => Deed::Store(c),
                None => Deed::Wait,
            }
        } else {
            match reply(m, station) {
                Some(answer) => Deed::Send(answer),
                None => Deed::Wait,
            }
        }),
{
}

/// Events and actions say what their parts are.
pub proof fn events_and_actions_say_their_parts(
    text: String,
    contact: XmlContact,
    unregister: bool,
    release: bool,
)
    ensures
        Event::Outbound(text)@ == Happening::Outbound(text@),
        Event::Frame(text)@ == Happening::Frame(text@),
        Event::Ready@ is Ready && Event::WriteFailed@ is WriteFailed,
        Event::Closed@ is Closed && Event::ReadFailed@ is ReadFailed,
        Action::Send(text)@ == Deed::Send(text@),
        Action::Store(contact)@ == Deed::Store(contact@),
        Action::Register@ is Register && Action::Wait@ is Wait,
        Action::Unparseable@ is Unparseable,
        (Action::Leave { unregister, release })@ == (Deed::Leave { unregister, release }),
{
}

} // verus!
