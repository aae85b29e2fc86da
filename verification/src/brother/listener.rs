//! One socket for every Brother, and which scanner each datagram belongs to.
//!
//! The port is fixed, so it is not a per-scanner resource: one socket serves every
//! subscribed scanner, is bound for the first of them and closed with the last. A datagram
//! belongs to the scanner that was subscribed with its source address; what the datagram
//! itself says of its origin selects nothing. Nothing is ever sent back.
use vstd::prelude::*;

use crate::model::ScannerId;
use crate::net::Ipv4Addr;
use crate::skey::event::{event_of, Event, EventView, KeyPressView};
use crate::skey::function::{entry_of, Function};
use crate::text;
use crate::text::{decimal, precedes};

verus! {

/// How many presses one subscriber may fall behind by.
pub const EVENT_QUEUE: usize = 8;

/// How many recent presses stay correlatable by trigger id.
pub const RECORDED_PRESSES: usize = 16;

/// Longest datagram read in one go.
pub const RECV_BUFFER: usize = 2048;

// ------------------------------------------------------------------------------ bind errors

/// Why the socket could not be opened.
#[derive(Debug, Clone, PartialEq, Eq)]
pub enum BindError {
    /// Another process holds the port.
    Taken { port: u16 },
    /// Anything else the bind refused.
    Io { port: u16, error: String },
}

/// What a [`BindError`] says.
pub enum BindErrorView {
    Taken { port: u16 },
    Io { port: u16, error: Seq<char> },
}

impl View for BindError {
    type V = BindErrorView;

    open spec fn view(&self) -> BindErrorView {
        match *self {
            BindError::Taken { port } => BindErrorView::Taken { port },
            BindError::Io { port, error } => BindErrorView::Io { port, error: error@ },
        }
    }
}

/// The sentence that an error is reported with.
pub open spec fn bind_error_text(e: BindErrorView) -> Seq<char> {
    match e {
        BindErrorView::Taken { port } => "UDP/"@ + decimal(port as nat)
            + " is already bound by another process"@,
        BindErrorView::Io { port, error } => "could not bind UDP/"@ + decimal(port as nat) + ": "@
            + error,
    }
}

impl BindError {
    /// The sentence that this error is reported with.
    pub fn to_text(&self) -> (r: String)
        ensures
            r@ == bind_error_text(self@),
    {
        match self {
            BindError::Taken { port } => {
                let mut out = "UDP/".to_owned();
                out.append(text::decimal_text(*port as u64).as_str());
                out.append(" is already bound by another process");
                out
            },
            BindError::Io { port, error } => {
                let mut out = "could not bind UDP/".to_owned();
                out.append(text::decimal_text(*port as u64).as_str());
                out.append(": ");
                out.append(error.as_str());
                out
            },
        }
    }
}

/// What came of opening the socket.
#[derive(Debug)]
pub enum SocketOutcome {
    /// It is bound to this port.
    Bound(u16),
    /// The address is in use.
    InUse,
    /// It failed otherwise, for this reason.
    Failed(String),
}

/// The port that the socket is bound to, or why it is not.
pub open spec fn bound_port(requested: u16, outcome: SocketOutcome) -> Result<u16, BindErrorView> {
    match outcome {
        SocketOutcome::Bound(port) => Ok(port),
        SocketOutcome::InUse => Err(BindErrorView::Taken { port: requested }),
        SocketOutcome::Failed(error) => Err(BindErrorView::Io { port: requested, error: error@ }),
    }
}

impl BindError {
    /// The port that the socket is bound to, or why it is not.
    pub fn from_outcome(requested: u16, outcome: SocketOutcome) -> (r: Result<u16, BindError>)
        ensures
            match bound_port(requested, outcome) {
                Ok(port) => r matches Ok(p) && p == port,
                Err(e) => r matches Err(x) && x@ == e,
            },
    {
        match outcome {
            SocketOutcome::Bound(port) => Ok(port),
            SocketOutcome::InUse => Err(BindError::Taken { port: requested }),
            SocketOutcome::Failed(error) => Err(BindError::Io { port: requested, error }),
        }
    }
}

// ---------------------------------------------------------------------------------- presses

/// One panel press, kept so that the scan it asks for can be correlated back to it.
#[derive(Debug, Clone, PartialEq, Eq)]
pub struct Press {
    /// The scanner the source address resolved to.
    pub scanner: ScannerId,
    /// The address the datagram came from.
    pub device: Ipv4Addr,
    /// The panel entry that was chosen.
    pub function: Function,
    /// `USER=` as the device echoed it.
    pub user: String,
    /// When the datagram was received, in milliseconds since the Unix epoch.
    pub at: u64,
}

/// What a [`Press`] says.
pub struct PressView {
    pub scanner: Seq<char>,
    pub device: Ipv4Addr,
    pub function: Function,
    pub user: Seq<char>,
    pub at: u64,
}

impl View for Press {
    type V = PressView;

    open spec fn view(&self) -> PressView {
        PressView {
            scanner: self.scanner@,
            device: self.device,
            function: self.function,
            user: self.user@,
            at: self.at,
        }
    }
}

/// What a subscriber is told of a press.
#[derive(Debug, Clone, PartialEq, Eq)]
pub struct ScanTrigger {
    pub scanner_id: ScannerId,
    /// What the pages of the press are fetched by.
    pub id: String,
    /// The button index of the entry that was chosen.
    pub button: u32,
}

/// What a [`ScanTrigger`] says.
pub struct ScanTriggerView {
    pub scanner_id: Seq<char>,
    pub id: Seq<char>,
    pub button: u32,
}

impl View for ScanTrigger {
    type V = ScanTriggerView;

    open spec fn view(&self) -> ScanTriggerView {
        ScanTriggerView { scanner_id: self.scanner_id@, id: self.id@, button: self.button }
    }
}

/// The id of the press with a number.
pub open spec fn trigger_id(number: u64) -> Seq<char> {
    "press-"@ + decimal(number as nat)
}

fn trigger_text(number: u64) -> (r: String)
    ensures
        r@ == trigger_id(number),
{
    let mut out = "press-".to_owned();
    out.append(text::decimal_text(number).as_str());
    out
}

// ------------------------------------------------------------------------------------ state

/// One subscribed scanner.
#[derive(Debug)]
pub struct Subscriber {
    pub scanner: ScannerId,
    /// The address whose datagrams belong to this scanner.
    pub device: Ipv4Addr,
    /// Which of the scanner's streams this entry belongs to.
    pub epoch: u64,
}

/// What a [`Subscriber`] says.
pub struct SubscriberView {
    pub scanner: Seq<char>,
    pub device: Ipv4Addr,
    pub epoch: u64,
}

impl View for Subscriber {
    type V = SubscriberView;

    open spec fn view(&self) -> SubscriberView {
        SubscriberView { scanner: self.scanner@, device: self.device, epoch: self.epoch }
    }
}

/// What several subscribers say.
pub open spec fn subscriber_views(v: Seq<Subscriber>) -> Seq<SubscriberView> {
    v.map_values(|s: Subscriber| s@)
}

#[derive(Debug)]
struct Recorded {
    number: u64,
    press: Press,
}

/// A press on record, with its number.
pub struct RecordedView {
    pub number: u64,
    pub press: PressView,
}

impl View for Recorded {
    type V = RecordedView;

    closed spec fn view(&self) -> RecordedView {
        RecordedView { number: self.number, press: self.press@ }
    }
}

spec fn recorded_views(v: Seq<Recorded>) -> Seq<RecordedView> {
    v.map_values(|r: Recorded| r@)
}

#[derive(Debug)]
struct State {
    bound: Option<u16>,
    closing: bool,
    subscribers: Vec<Subscriber>,
    presses: Vec<Recorded>,
    next_trigger: u64,
    next_epoch: u64,
}

/// What a [`Listener`] holds.
pub struct ListenerView {
    /// The port to ask for.
    pub requested: u16,
    /// The port the socket is bound to, while there is one.
    pub bound: Option<u16>,
    /// Whether an earlier socket may still be open.
    pub closing: bool,
    /// The subscribed scanners, in the order of their ids.
    pub subscribers: Seq<SubscriberView>,
    /// The presses whose pages nothing has fetched yet, oldest first.
    pub presses: Seq<RecordedView>,
    /// The number of the last press.
    pub next_trigger: u64,
    /// The epoch of the last subscription.
    pub next_epoch: u64,
}

/// The number behind a number; behind the last comes zero.
pub open spec fn following(n: u64) -> u64 {
    if n == u64::MAX {
        0
    } else {
        (n + 1) as u64
    }
}

fn next_number(n: u64) -> (r: u64)
    ensures
        r == following(n),
{
    if n == 0xffff_ffff_ffff_ffff {
        0
    } else {
        n + 1
    }
}

// -------------------------------------------------------------------------- what happens to it

/// A listener to which nothing has happened.
pub open spec fn fresh(port: u16) -> ListenerView {
    ListenerView {
        requested: port,
        bound: None,
        closing: false,
        subscribers: seq![],
        presses: seq![],
        next_trigger: 0,
        next_epoch: 0,
    }
}

/// Subscribers with one more, in the order of ids; it takes the place of one with its id.
pub open spec fn enrolled(list: Seq<SubscriberView>, s: SubscriberView) -> Seq<SubscriberView>
    decreases list.len(),
{
    if list.len() == 0 {
        seq![s]
    } else if list[0].scanner == s.scanner {
        seq![s] + list.drop_first()
    } else if precedes(s.scanner, list[0].scanner) {
        seq![s] + list
    } else {
        seq![list[0]] + enrolled(list.drop_first(), s)
    }
}

/// Subscribers without the one with an id.
pub open spec fn dismissed(list: Seq<SubscriberView>, scanner: Seq<char>) -> Seq<SubscriberView>
    decreases list.len(),
{
    if list.len() == 0 {
        list
    } else if list[0].scanner == scanner {
        list.drop_first()
    } else {
        seq![list[0]] + dismissed(list.drop_first(), scanner)
    }
}

/// The epoch of the subscription of a scanner, where there is one.
pub open spec fn epoch_of(list: Seq<SubscriberView>, scanner: Seq<char>) -> Option<u64>
    decreases list.len(),
{
    if list.len() == 0 {
        None
    } else if list[0].scanner == scanner {
        Some(list[0].epoch)
    } else {
        epoch_of(list.drop_first(), scanner)
    }
}

/// The scanner that a datagram from an address belongs to.
pub open spec fn scanner_from(list: Seq<SubscriberView>, from: Ipv4Addr) -> Option<Seq<char>>
    decreases list.len(),
{
    if list.len() == 0 {
        None
    } else if list[0].device == from {
        Some(list[0].scanner)
    } else {
        scanner_from(list.drop_first(), from)
    }
}

/// The socket that a subscription is to use, or why there is none. A socket that is open is
/// used again.
pub open spec fn socket_for(s: ListenerView, outcome: Option<SocketOutcome>) -> Result<
    u16,
    BindErrorView,
> {
    match (s.bound, outcome) {
        (Some(port), _) => Ok(port),
        (None, Some(o)) => bound_port(s.requested, o),
        (None, None) => arbitrary(),
    }
}

/// A listener to which a scanner has subscribed, over a socket that is bound to a port.
pub open spec fn subscribed(
    s: ListenerView,
    scanner: Seq<char>,
    device: Ipv4Addr,
    port: u16,
) -> ListenerView {
    ListenerView {
        bound: Some(port),
        closing: false,
        subscribers: enrolled(
            s.subscribers,
            SubscriberView { scanner, device, epoch: following(s.next_epoch) },
        ),
        next_epoch: following(s.next_epoch),
        ..s
    }
}

/// A listener that a scanner has left, over a socket that goes with the last one.
pub open spec fn left(s: ListenerView, scanner: Seq<char>) -> ListenerView {
    let rest = dismissed(s.subscribers, scanner);
    ListenerView {
        subscribers: rest,
        bound: if rest.len() == 0 {
            None
        } else {
            s.bound
        },
        ..s
    }
}

/// A listener from which a scanner was unsubscribed.
pub open spec fn unsubscribed(s: ListenerView, scanner: Seq<char>) -> ListenerView {
    ListenerView { closing: false, ..left(s, scanner) }
}

/// A listener of which the stream of a scanner with an epoch was dropped.
pub open spec fn dropped(s: ListenerView, scanner: Seq<char>, epoch: u64) -> ListenerView {
    if epoch_of(s.subscribers, scanner) != Some(epoch) {
        s
    } else {
        let after = left(s, scanner);
        ListenerView {
            closing: if after.subscribers.len() == 0 {
                s.bound is Some
            } else {
                s.closing
            },
            ..after
        }
    }
}

/// The most recent presses.
pub open spec fn recent(presses: Seq<RecordedView>) -> Seq<RecordedView> {
    if presses.len() > RECORDED_PRESSES {
        presses.skip(presses.len() - RECORDED_PRESSES)
    } else {
        presses
    }
}

/// The press that a panel says from an address that belongs to a scanner.
pub open spec fn press_of(
    press: KeyPressView,
    scanner: Seq<char>,
    from: Ipv4Addr,
    at: u64,
) -> PressView {
    PressView {
        scanner,
        device: from,
        function: entry_of(press.function),
        user: press.user,
        at,
    }
}

/// A listener with one more press on record.
pub open spec fn recorded(s: ListenerView, press: PressView) -> ListenerView {
    ListenerView {
        presses: recent(
            s.presses.push(RecordedView { number: following(s.next_trigger), press }),
        ),
        next_trigger: following(s.next_trigger),
        ..s
    }
}

/// What one datagram does to a listener, and what it becomes.
pub open spec fn dispatched(
    s: ListenerView,
    from: Ipv4Addr,
    datagram: Seq<u8>,
    at: u64,
) -> (ListenerView, Option<ScanTriggerView>) {
    match event_of(datagram) {
        Ok(EventView::KeyPress(press)) => match scanner_from(s.subscribers, from) {
            Some(scanner) => (
                recorded(s, press_of(press, scanner, from, at)),
                Some(
                    ScanTriggerView {
                        scanner_id: scanner,
                        id: trigger_id(following(s.next_trigger)),
                        button: entry_of(press.function).index(),
                    },
                ),
            ),
            None => (s, None),
        },
        _ => (s, None),
    }
}

/// The place of the press of a scanner with a trigger id on the record, or the record's
/// length.
pub open spec fn press_place(
    presses: Seq<RecordedView>,
    scanner: Seq<char>,
    trigger: Seq<char>,
) -> int
    decreases presses.len(),
{
    if presses.len() == 0 || (trigger_id(presses[0].number) == trigger && presses[0].press.scanner
        == scanner) {
        0
    } else {
        1 + press_place(presses.drop_first(), scanner, trigger)
    }
}

/// A listener from which a press was taken, and the press.
pub open spec fn taken(s: ListenerView, scanner: Seq<char>, trigger: Seq<char>) -> (
    ListenerView,
    Option<PressView>,
) {
    let i = press_place(s.presses, scanner, trigger);
    if i < s.presses.len() {
        (ListenerView { presses: s.presses.remove(i), ..s }, Some(s.presses[i].press))
    } else {
        (s, None)
    }
}

/// A listener whose socket failed: every stream ends.
pub open spec fn broken(s: ListenerView) -> ListenerView {
    ListenerView { subscribers: seq![], bound: None, ..s }
}

// -------------------------------------------------------------------------------- soundness

/// Whether subscribers are in the order of their ids, which then are all different.
pub open spec fn in_order(list: Seq<SubscriberView>) -> bool {
    forall|i: int, j: int|
        0 <= i < j < list.len() ==> precedes(
            (#[trigger] list[i]).scanner,
            (#[trigger] list[j]).scanner,
        )
}

/// What always holds of a listener: the socket is open exactly while someone is subscribed,
/// no socket is bound while an earlier one may still be open, every scanner is subscribed
/// once, and the record of presses is bounded.
pub open spec fn sound(s: ListenerView) -> bool {
    &&& s.bound is Some <==> s.subscribers.len() > 0
    &&& s.closing ==> s.bound is None
    &&& in_order(s.subscribers)
    &&& s.presses.len() <= RECORDED_PRESSES
}

proof fn lemma_tail_in_order(list: Seq<SubscriberView>)
    requires
        in_order(list),
        list.len() > 0,
    ensures
        in_order(list.drop_first()),
{
    let rest = list.drop_first();
    assert forall|i: int, j: int| 0 <= i < j < rest.len() implies precedes(
        (#[trigger] rest[i]).scanner,
        (#[trigger] rest[j]).scanner,
    ) by {
        assert(rest[i] == list[i + 1] && rest[j] == list[j + 1]);
    }
}

proof fn lemma_enrolled(list: Seq<SubscriberView>, s: SubscriberView)
    requires
        in_order(list),
    ensures
        in_order(enrolled(list, s)),
        enrolled(list, s).len() > 0,
        forall|i: int|
            0 <= i < enrolled(list, s).len() ==> (#[trigger] enrolled(list, s)[i]) == s
                || list.contains(enrolled(list, s)[i]),
        epoch_of(enrolled(list, s), s.scanner) == Some(s.epoch),
    decreases list.len(),
{
    let p = enrolled(list, s);
    if list.len() > 0 {
        let rest = list.drop_first();
        lemma_tail_in_order(list);
        assert forall|k: int| 0 <= k < list.len() implies list.contains(#[trigger] list[k]) by {}
        if list[0].scanner == s.scanner {
            assert forall|i: int, j: int| 0 <= i < j < p.len() implies precedes(
                (#[trigger] p[i]).scanner,
                (#[trigger] p[j]).scanner,
            ) by {
                assert(p[j] == list[j]);
                if i > 0 {
                    assert(p[i] == list[i]);
                } else {
                    assert(list[0].scanner == p[0].scanner);
                }
            }
            assert forall|i: int| 0 <= i < p.len() implies (#[trigger] p[i]) == s || list.contains(
                p[i],
            ) by {
                if i > 0 {
                    assert(p[i] == list[i]);
                }
            }
        } else if precedes(s.scanner, list[0].scanner) {
            assert forall|i: int, j: int| 0 <= i < j < p.len() implies precedes(
                (#[trigger] p[i]).scanner,
                (#[trigger] p[j]).scanner,
            ) by {
                assert(p[j] == list[j - 1]);
                if i > 0 {
                    assert(p[i] == list[i - 1]);
                } else if j > 1 {
                    assert(precedes(list[0].scanner, list[j - 1].scanner));
                    text::lemma_precedes_transitive(
                        s.scanner,
                        list[0].scanner,
                        list[j - 1].scanner,
                    );
                }
            }
            assert forall|i: int| 0 <= i < p.len() implies (#[trigger] p[i]) == s || list.contains(
                p[i],
            ) by {
                if i > 0 {
                    assert(p[i] == list[i - 1]);
                }
            }
        } else {
            text::lemma_precedes_total(s.scanner, list[0].scanner);
            lemma_enrolled(rest, s);
            let q = enrolled(rest, s);
            assert(p.drop_first() =~= q);
            assert forall|i: int| 0 <= i < p.len() implies (#[trigger] p[i]) == s || list.contains(
                p[i],
            ) by {
                if i > 0 {
                    assert(p[i] == q[i - 1]);
                    if q[i - 1] != s {
                        let k = choose|k: int| 0 <= k < rest.len() && rest[k] == q[i - 1];
                        assert(list[k + 1] == q[i - 1]);
                    }
                }
            }
            assert forall|i: int, j: int| 0 <= i < j < p.len() implies precedes(
                (#[trigger] p[i]).scanner,
                (#[trigger] p[j]).scanner,
            ) by {
                assert(p[j] == q[j - 1]);
                if i > 0 {
                    assert(p[i] == q[i - 1]);
                } else if q[j - 1] != s {
                    assert(rest.contains(q[j - 1]));
                    let k = choose|k: int| 0 <= k < rest.len() && rest[k] == q[j - 1];
                    assert(list[k + 1] == q[j - 1]);
                }
            }
        }
    } else {
        assert(p[0] == s);
    }
}

proof fn lemma_dismissed(list: Seq<SubscriberView>, scanner: Seq<char>)
    requires
        in_order(list),
    ensures
        in_order(dismissed(list, scanner)),
        forall|i: int|
            0 <= i < dismissed(list, scanner).len() ==> list.contains(
                #[trigger] dismissed(list, scanner)[i],
            ) && dismissed(list, scanner)[i].scanner != scanner,
    decreases list.len(),
{
    let p = dismissed(list, scanner);
    if list.len() > 0 {
        let rest = list.drop_first();
        lemma_tail_in_order(list);
        lemma_dismissed(rest, scanner);
        let q = dismissed(rest, scanner);
        if list[0].scanner == scanner {
            assert forall|i: int| 0 <= i < p.len() implies list.contains(#[trigger] p[i])
                && p[i].scanner != scanner by {
                assert(p[i] == list[i + 1]);
                assert(precedes(list[0].scanner, list[i + 1].scanner));
                text::lemma_precedes_total(list[0].scanner, list[i + 1].scanner);
            }
        } else {
            assert forall|i: int| 0 <= i < p.len() implies list.contains(#[trigger] p[i])
                && p[i].scanner != scanner by {
                if i > 0 {
                    assert(p[i] == q[i - 1]);
                    assert(rest.contains(q[i - 1]));
                    let k = choose|k: int| 0 <= k < rest.len() && rest[k] == q[i - 1];
                    assert(list[k + 1] == p[i]);
                } else {
                    assert(list[0] == p[0]);
                }
            }
            assert forall|i: int, j: int| 0 <= i < j < p.len() implies precedes(
                (#[trigger] p[i]).scanner,
                (#[trigger] p[j]).scanner,
            ) by {
                assert(p[j] == q[j - 1]);
                if i > 0 {
                    assert(p[i] == q[i - 1]);
                } else {
                    assert(rest.contains(q[j - 1]));
                    let k = choose|k: int| 0 <= k < rest.len() && rest[k] == q[j - 1];
                    assert(list[k + 1] == q[j - 1]);
                }
            }
        }
    }
}

/// Whatever happens to a listener, it stays sound.
pub proof fn law_a_listener_stays_sound(
    s: ListenerView,
    scanner: Seq<char>,
    device: Ipv4Addr,
    port: u16,
    epoch: u64,
    datagram: Seq<u8>,
    trigger: Seq<char>,
    at: u64,
)
    requires
        sound(s),
    ensures
        sound(fresh(port)),
        s.bound is None || s.bound == Some(port) ==> sound(subscribed(s, scanner, device, port)),
        sound(unsubscribed(s, scanner)),
        sound(dropped(s, scanner, epoch)),
        sound(dispatched(s, device, datagram, at).0),
        sound(taken(s, scanner, trigger).0),
        sound(broken(s)),
{
    lemma_enrolled(
        s.subscribers,
        SubscriberView { scanner, device, epoch: following(s.next_epoch) },
    );
    lemma_dismissed(s.subscribers, scanner);
    lemma_press_place(s.presses, scanner, trigger);
    lemma_dismissed_someone(s.subscribers, scanner);
}

proof fn lemma_dismissed_someone(list: Seq<SubscriberView>, scanner: Seq<char>)
    ensures
        epoch_of(list, scanner) is None ==> dismissed(list, scanner) == list,
        dismissed(list, scanner).len() <= list.len(),
        dismissed(list, scanner).len() + 1 >= list.len(),
    decreases list.len(),
{
    if list.len() > 0 {
        lemma_dismissed_someone(list.drop_first(), scanner);
        if list[0].scanner != scanner && epoch_of(list, scanner) is None {
            assert(dismissed(list, scanner) =~= list);
        }
    }
}

proof fn lemma_press_place(presses: Seq<RecordedView>, scanner: Seq<char>, trigger: Seq<char>)
    ensures
        0 <= press_place(presses, scanner, trigger) <= presses.len(),
        press_place(presses, scanner, trigger) < presses.len() ==> trigger_id(
            presses[press_place(presses, scanner, trigger)].number,
        ) == trigger && presses[press_place(presses, scanner, trigger)].press.scanner == scanner,
        forall|j: int|
            0 <= j < press_place(presses, scanner, trigger) ==> !(trigger_id(
                (#[trigger] presses[j]).number,
            ) == trigger && presses[j].press.scanner == scanner),
    decreases presses.len(),
{
    if presses.len() > 0 && !(trigger_id(presses[0].number) == trigger && presses[0].press.scanner
        == scanner) {
        let rest = presses.drop_first();
        lemma_press_place(rest, scanner, trigger);
        assert forall|j: int| 0 <= j < press_place(presses, scanner, trigger) implies !(trigger_id(
            (#[trigger] presses[j]).number,
        ) == trigger && presses[j].press.scanner == scanner) by {
            if j > 0 {
                assert(rest[j - 1] == presses[j]);
            }
        }
        if press_place(presses, scanner, trigger) < presses.len() {
            assert(rest[press_place(rest, scanner, trigger)] == presses[press_place(
                presses,
                scanner,
                trigger,
            )]);
        }
    }
}

// -------------------------------------------------------------------------------- the listener

/// What is to become of the socket when a scanner was unsubscribed.
#[derive(Debug, Clone, Copy, PartialEq, Eq, Structural)]
pub struct Release {
    /// The task that reads the socket is to be ended.
    pub abort: bool,
    /// A task that reads a socket is to be waited for.
    pub wait: bool,
}

/// The one listener for panel presses. Nothing is bound until something subscribes.
#[derive(Debug)]
pub struct Listener {
    requested_port: u16,
    state: State,
}

impl View for Listener {
    type V = ListenerView;

    closed spec fn view(&self) -> ListenerView {
        listener_view(self.requested_port, self.state)
    }
}

spec fn listener_view(requested: u16, s: State) -> ListenerView {
    ListenerView {
        requested,
        bound: s.bound,
        closing: s.closing,
        subscribers: subscriber_views(s.subscribers@),
        presses: recorded_views(s.presses@),
        next_trigger: s.next_trigger,
        next_epoch: s.next_epoch,
    }
}

fn empty_state() -> (r: State)
    ensures
        listener_view(0, r) == fresh(0),
        forall|port: u16| #[trigger] listener_view(port, r) == fresh(port),
{
    let r = State {
        bound: None,
        closing: false,
        subscribers: Vec::new(),
        presses: Vec::new(),
        next_trigger: 0,
        next_epoch: 0,
    };
    proof {
        assert(subscriber_views(r.subscribers@) =~= seq![]);
        assert(recorded_views(r.presses@) =~= seq![]);
    }
    r
}

fn enroll(list: &mut Vec<Subscriber>, s: Subscriber)
    ensures
        subscriber_views(final(list)@) == enrolled(subscriber_views(old(list)@), s@),
{
    let ghost before = list@;
    let ghost all = subscriber_views(before);
    let ghost said = s@;
    let mut i: usize = 0;
    assert(all.skip(0) =~= all);
    assert(all.take(0) + enrolled(all.skip(0), said) =~= enrolled(all, said));
    while i < list.len() && list[i].scanner.comes_before(&s.scanner)
        invariant
            list@ == before,
            all == subscriber_views(before),
            said == s@,
            i <= list@.len(),
            all.take(i as int) + enrolled(all.skip(i as int), said) =~= enrolled(all, said),
        decreases list@.len() - i,
    {
        proof {
            let rest = all.skip(i as int);
            assert(rest[0] == all[i as int]);
            assert(rest.drop_first() =~= all.skip(i + 1));
            text::lemma_precedes_total(rest[0].scanner, said.scanner);
            assert(all.take(i + 1) =~= all.take(i as int).push(all[i as int]));
        }
        i = i + 1;
    }
    let ghost rest = all.skip(i as int);
    if i < list.len() {
        proof {
            assert(rest[0] == all[i as int]);
            text::lemma_precedes_total(rest[0].scanner, said.scanner);
        }
        if list[i].scanner.same(&s.scanner) {
            list.set(i, s);
            assert(subscriber_views(list@) =~= all.take(i as int) + (seq![said]
                + rest.drop_first()));
        } else {
            list.insert(i, s);
            assert(subscriber_views(list@) =~= all.take(i as int) + (seq![said] + rest));
        }
    } else {
        assert(rest =~= seq![]);
        list.push(s);
        assert(subscriber_views(list@) =~= all.take(i as int) + seq![said]);
    }
}

fn dismiss(list: &mut Vec<Subscriber>, scanner: &ScannerId)
    ensures
        subscriber_views(final(list)@) == dismissed(subscriber_views(old(list)@), scanner@),
{
    let ghost before = list@;
    let ghost all = subscriber_views(before);
    let mut i: usize = 0;
    assert(all.skip(0) =~= all);
    assert(all.take(0) + dismissed(all.skip(0), scanner@) =~= dismissed(all, scanner@));
    while i < list.len() && !list[i].scanner.same(scanner)
        invariant
            list@ == before,
            all == subscriber_views(before),
            i <= list@.len(),
            all.take(i as int) + dismissed(all.skip(i as int), scanner@) =~= dismissed(
                all,
                scanner@,
            ),
        decreases list@.len() - i,
    {
        proof {
            let rest = all.skip(i as int);
            assert(rest[0] == all[i as int]);
            assert(rest.drop_first() =~= all.skip(i + 1));
            assert(all.take(i + 1) =~= all.take(i as int).push(all[i as int]));
        }
        i = i + 1;
    }
    let ghost rest = all.skip(i as int);
    if i < list.len() {
        assert(rest[0] == all[i as int]);
        let _ = list.remove(i);
        assert(subscriber_views(list@) =~= all.take(i as int) + rest.drop_first());
    } else {
        assert(rest =~= seq![]);
        assert(all =~= all.take(i as int) + rest);
    }
}

fn find_epoch(list: &Vec<Subscriber>, scanner: &ScannerId) -> (r: Option<u64>)
    ensures
        r == epoch_of(subscriber_views(list@), scanner@),
{
    let ghost all = subscriber_views(list@);
    let mut i: usize = 0;
    assert(all.skip(0) =~= all);
    while i < list.len()
        invariant
            all == subscriber_views(list@),
            i <= list@.len(),
            epoch_of(all, scanner@) == epoch_of(all.skip(i as int), scanner@),
        decreases list@.len() - i,
    {
        proof {
            assert(all.skip(i as int)[0] == list@[i as int]@);
            assert(all.skip(i as int).drop_first() =~= all.skip(i + 1));
        }
        if list[i].scanner.same(scanner) {
            return Some(list[i].epoch);
        }
        i = i + 1;
    }
    None
}

fn scanner_at(list: &Vec<Subscriber>, from: Ipv4Addr) -> (r: Option<ScannerId>)
    ensures
        match r {
            Some(id) => scanner_from(subscriber_views(list@), from) == Some(id@),
            None => scanner_from(subscriber_views(list@), from) is None,
        },
{
    let ghost all = subscriber_views(list@);
    let mut i: usize = 0;
    assert(all.skip(0) =~= all);
    while i < list.len()
        invariant
            all == subscriber_views(list@),
            i <= list@.len(),
            scanner_from(all, from) == scanner_from(all.skip(i as int), from),
        decreases list@.len() - i,
    {
        proof {
            assert(all.skip(i as int)[0] == list@[i as int]@);
            assert(all.skip(i as int).drop_first() =~= all.skip(i + 1));
        }
        if list[i].device == from {
            return Some(list[i].scanner.clone());
        }
        i = i + 1;
    }
    None
}

fn record(presses: &mut Vec<Recorded>, entry: Recorded)
    ensures
        recorded_views(final(presses)@) == recent(recorded_views(old(presses)@).push(entry@)),
{
    let ghost before = presses@;
    let ghost said = entry@;
    presses.push(entry);
    let ghost all = presses@;
    let ghost views = recorded_views(before).push(said);
    assert(recorded_views(all) =~= views);
    let mut gone: usize = 0;
    let total: usize = presses.len();
    while presses.len() > RECORDED_PRESSES
        invariant
            gone <= total,
            total == all.len(),
            presses@ =~= all.skip(gone as int),
            gone > 0 ==> presses@.len() >= RECORDED_PRESSES,
        decreases presses@.len(),
    {
        let _ = presses.remove(0);
        gone = gone + 1;
    }
    assert(recorded_views(presses@) =~= recent(views));
}

impl Listener {
    #[verifier::type_invariant]
    spec fn is_sound(self) -> bool {
        sound(listener_view(self.requested_port, self.state))
    }

    /// A listener for `port`.
    pub fn new(port: u16) -> (r: Self)
        ensures
            r@ == fresh(port),
    {
        Listener { requested_port: port, state: empty_state() }
    }

    /// The port the socket is bound to, or `None` while it is closed. It is open exactly
    /// while someone is subscribed.
    pub fn port(&self) -> (r: Option<u16>)
        ensures
            r == self@.bound,
            r is Some <==> self@.subscribers.len() > 0,
    {
        proof {
            use_type_invariant(self);
        }
        self.state.bound
    }

    /// The port to ask for.
    pub fn requested_port(&self) -> (r: u16)
        ensures
            r == self@.requested,
    {
        self.requested_port
    }

    /// How many scanners are subscribed.
    pub fn subscribers(&self) -> (r: usize)
        ensures
            r == self@.subscribers.len(),
    {
        self.state.subscribers.len()
    }

    /// Whether an earlier socket is to be waited for before another is opened.
    pub fn is_closing(&self) -> (r: bool)
        ensures
            r == self@.closing,
    {
        self.state.closing
    }

    /// Subscribe a scanner to the presses that come from an address, over the open socket,
    /// or, where there is none, over the one whose opening came to `socket`. Subscribing
    /// again takes the place of the earlier stream. Where no socket opens, nobody is
    /// subscribed. The result is the epoch of the stream.
    pub fn subscribe(
        &mut self,
        scanner: ScannerId,
        device: Ipv4Addr,
        socket: Option<SocketOutcome>,
    ) -> (r: Result<u64, BindError>)
        requires
            old(self)@.bound is None ==> socket is Some,
        ensures
            match socket_for(old(self)@, socket) {
                Ok(port) => {
                    &&& final(self)@ == subscribed(old(self)@, scanner@, device, port)
                    &&& r matches Ok(epoch) && epoch == following(old(self)@.next_epoch)
                },
                Err(e) => {
                    &&& final(self)@ == (ListenerView { closing: false, ..old(self)@ })
                    &&& r matches Err(x) && x@ == e
                },
            },
    {
        proof {
            use_type_invariant(&*self);
        }
        let ghost before = self@;
        let requested: u16 = self.requested_port;
        let mut state = empty_state();
        std::mem::swap(&mut state, &mut self.state);
        state.closing = false;
        if state.bound.is_none() {
            let outcome = match socket {
                Some(outcome) => outcome,
                None => SocketOutcome::InUse,
            };
            match BindError::from_outcome(requested, outcome) {
                Ok(port) => {
                    state.bound = Some(port);
                },
                Err(error) => {
                    self.state = state;
                    return Err(error);
                },
            }
        }
        let epoch: u64 = next_number(state.next_epoch);
        state.next_epoch = epoch;
        let entry = Subscriber { scanner, device, epoch };
        proof {
            lemma_enrolled(before.subscribers, entry@);
        }
        enroll(&mut state.subscribers, entry);
        self.state = state;
        Ok(epoch)
    }

    /// Stop a scanner's subscription, and close the socket if it was the last. A scanner
    /// that is not subscribed is left out without complaint.
    pub fn unsubscribe(&mut self, scanner: &ScannerId) -> (r: Release)
        ensures
            final(self)@ == unsubscribed(old(self)@, scanner@),
            r.abort == (old(self)@.bound is Some && final(self)@.bound is None),
            r.wait == (r.abort || old(self)@.closing),
    {
        proof {
            use_type_invariant(&*self);
        }
        let ghost before = self@;
        let mut state = empty_state();
        std::mem::swap(&mut state, &mut self.state);
        proof {
            lemma_dismissed(before.subscribers, scanner@);
            lemma_dismissed_someone(before.subscribers, scanner@);
        }
        dismiss(&mut state.subscribers, scanner);
        let closing = state.closing;
        state.closing = false;
        let mut abort = false;
        if state.subscribers.len() == 0 {
            abort = state.bound.is_some();
            state.bound = None;
        }
        self.state = state;
        Release { abort, wait: abort || closing }
    }

    /// A stream was dropped: stop its subscription, unless another stream has taken its
    /// place. Whether the task that reads the socket is to be ended.
    pub fn drop_subscription(&mut self, scanner: &ScannerId, epoch: u64) -> (r: bool)
        ensures
            final(self)@ == dropped(old(self)@, scanner@, epoch),
            r == (old(self)@.bound is Some && final(self)@.bound is None),
    {
        proof {
            use_type_invariant(&*self);
        }
        let ghost before = self@;
        if find_epoch(&self.state.subscribers, scanner) != Some(epoch) {
            return false;
        }
        let mut state = empty_state();
        std::mem::swap(&mut state, &mut self.state);
        proof {
            lemma_dismissed(before.subscribers, scanner@);
            lemma_dismissed_someone(before.subscribers, scanner@);
        }
        dismiss(&mut state.subscribers, scanner);
        let mut abort = false;
        if state.subscribers.len() == 0 {
            abort = state.bound.is_some();
            state.bound = None;
            state.closing = abort;
        }
        self.state = state;
        abort
    }

    /// One datagram: what it is, whose it is, and what it becomes.
    pub fn dispatch(&mut self, from: Ipv4Addr, datagram: &[u8], at: u64) -> (r: Option<
        ScanTrigger,
    >)
        ensures
            final(self)@ == dispatched(old(self)@, from, datagram@, at).0,
            match r {
                Some(t) => dispatched(old(self)@, from, datagram@, at).1 == Some(t@),
                None => dispatched(old(self)@, from, datagram@, at).1 is None,
            },
    {
        proof {
            use_type_invariant(&*self);
        }
        let press = match Event::parse(datagram) {
            Ok(Event::KeyPress(press)) => press,
            _ => {
                return None;
            },
        };
        let scanner = match scanner_at(&self.state.subscribers, from) {
            Some(scanner) => scanner,
            None => {
                return None;
            },
        };
        let mut state = empty_state();
        std::mem::swap(&mut state, &mut self.state);
        let function = Function::from_panel(press.function);
        let number: u64 = next_number(state.next_trigger);
        state.next_trigger = number;
        record(
            &mut state.presses,
            Recorded {
                number,
                press: Press {
                    scanner: scanner.clone(),
                    device: from,
                    function,
                    user: press.user,
                    at,
                },
            },
        );
        self.state = state;
        Some(
            ScanTrigger {
                scanner_id: scanner,
                id: trigger_text(number),
                button: function.button_index(),
            },
        )
    }

    /// The press that a trigger id was minted for, taken off the record.
    pub fn take_press(&mut self, scanner: &ScannerId, trigger: &str) -> (r: Option<Press>)
        ensures
            final(self)@ == taken(old(self)@, scanner@, trigger@).0,
            match r {
                Some(p) => taken(old(self)@, scanner@, trigger@).1 == Some(p@),
                None => taken(old(self)@, scanner@, trigger@).1 is None,
            },
    {
        proof {
            use_type_invariant(&*self);
        }
        let ghost before = self@;
        let ghost all = before.presses;
        proof {
            lemma_press_place(all, scanner@, trigger@);
        }
        let mut i: usize = 0;
        assert(all.skip(0) =~= all);
        while i < self.state.presses.len()
            invariant
                self@ == before,
                all == before.presses,
                all == recorded_views(self.state.presses@),
                i <= self.state.presses@.len(),
                press_place(all, scanner@, trigger@) == i + press_place(
                    all.skip(i as int),
                    scanner@,
                    trigger@,
                ),
            ensures
                i == press_place(all, scanner@, trigger@),
            decreases self.state.presses@.len() - i,
        {
            proof {
                assert(all.skip(i as int)[0] == all[i as int]);
                assert(all.skip(i as int).drop_first() =~= all.skip(i + 1));
                assert(all[i as int] == self.state.presses@[i as int]@);
            }
            if text::same(trigger_text(self.state.presses[i].number).as_str(), trigger)
                && self.state.presses[i].press.scanner.same(scanner) {
                break ;
            }
            i = i + 1;
        }
        if i >= self.state.presses.len() {
            return None;
        }
        let mut state = empty_state();
        std::mem::swap(&mut state, &mut self.state);
        let ghost held = state.presses@;
        let entry = state.presses.remove(i);
        proof {
            assert(entry@ == all[i as int]);
            assert(recorded_views(state.presses@) =~= all.remove(i as int));
        }
        self.state = state;
        Some(entry.press)
    }

    /// The socket failed: every stream ends.
    pub fn socket_failed(&mut self)
        ensures
            final(self)@ == broken(old(self)@),
    {
        proof {
            use_type_invariant(&*self);
        }
        let mut state = empty_state();
        std::mem::swap(&mut state, &mut self.state);
        state.subscribers = Vec::new();
        state.bound = None;
        assert(subscriber_views(state.subscribers@) =~= seq![]);
        self.state = state;
    }
}

// ------------------------------------------------------------------------------------ laws

/// Whether the presses on record have rising numbers, none past the last that was given
/// out.
pub open spec fn numbered(s: ListenerView) -> bool {
    &&& forall|i: int, j: int|
        0 <= i < j < s.presses.len() ==> (#[trigger] s.presses[i]).number < (
        #[trigger] s.presses[j]).number
    &&& forall|i: int|
        0 <= i < s.presses.len() ==> (#[trigger] s.presses[i]).number <= s.next_trigger
}

/// Until the numbers run out, presses on record keep rising numbers, whatever happens.
pub proof fn law_presses_keep_rising_numbers(
    s: ListenerView,
    scanner: Seq<char>,
    device: Ipv4Addr,
    port: u16,
    epoch: u64,
    datagram: Seq<u8>,
    trigger: Seq<char>,
    at: u64,
)
    requires
        numbered(s),
        s.next_trigger < u64::MAX,
    ensures
        numbered(fresh(port)),
        numbered(subscribed(s, scanner, device, port)),
        numbered(unsubscribed(s, scanner)),
        numbered(dropped(s, scanner, epoch)),
        numbered(dispatched(s, device, datagram, at).0),
        numbered(taken(s, scanner, trigger).0),
        numbered(broken(s)),
{
    lemma_press_place(s.presses, scanner, trigger);
    let i = press_place(s.presses, scanner, trigger);
    let t = taken(s, scanner, trigger).0;
    if i < s.presses.len() {
        assert forall|a: int, b: int| 0 <= a < b < t.presses.len() implies (
        #[trigger] t.presses[a]).number < (#[trigger] t.presses[b]).number by {
            let x = if a < i {
                a
            } else {
                a + 1
            };
            let y = if b < i {
                b
            } else {
                b + 1
            };
            assert(t.presses[a] == s.presses[x] && t.presses[b] == s.presses[y]);
        }
        assert forall|a: int| 0 <= a < t.presses.len() implies (#[trigger] t.presses[a]).number
            <= t.next_trigger by {
            let x = if a < i {
                a
            } else {
                a + 1
            };
            assert(t.presses[a] == s.presses[x]);
        }
    }
    let d = dispatched(s, device, datagram, at).0;
    if d.next_trigger != s.next_trigger {
        let cut: int = if s.presses.len() + 1 > RECORDED_PRESSES {
            s.presses.len() + 1 - RECORDED_PRESSES
        } else {
            0
        };
        assert forall|a: int| 0 <= a < d.presses.len() implies (#[trigger] d.presses[a]).number
            <= d.next_trigger && (a + cut < s.presses.len() ==> d.presses[a] == s.presses[a + cut])
            by {
            if a + cut < s.presses.len() {
                assert(d.presses[a] == s.presses[a + cut]);
            }
        }
        assert forall|a: int, b: int| 0 <= a < b < d.presses.len() implies (
        #[trigger] d.presses[a]).number < (#[trigger] d.presses[b]).number by {
            assert(d.presses[a] == s.presses[a + cut]);
            if b + cut < s.presses.len() {
                assert(d.presses[b] == s.presses[b + cut]);
            } else {
                assert(d.presses[b].number == d.next_trigger);
            }
        }
    }
}

proof fn lemma_trigger_ids_differ(a: u64, b: u64)
    requires
        a != b,
    ensures
        trigger_id(a) != trigger_id(b),
{
    text::lemma_decimal_reads_back(a as nat);
    text::lemma_decimal_reads_back(b as nat);
    if trigger_id(a) == trigger_id(b) {
        let n = "press-"@.len() as int;
        assert(trigger_id(a).skip(n) =~= decimal(a as nat));
        assert(trigger_id(b).skip(n) =~= decimal(b as nat));
    }
}

/// A press is fetched once: whoever asks for it again is told that there is none, and so is
/// any other scanner.
pub proof fn law_a_press_is_taken_once(
    s: ListenerView,
    scanner: Seq<char>,
    trigger: Seq<char>,
    other: Seq<char>,
)
    requires
        numbered(s),
        taken(s, scanner, trigger).1 is Some,
    ensures
        taken(taken(s, scanner, trigger).0, other, trigger).1 is None,
{
    lemma_press_place(s.presses, scanner, trigger);
    let i = press_place(s.presses, scanner, trigger);
    let t = taken(s, scanner, trigger).0;
    lemma_press_place(t.presses, other, trigger);
    let k = press_place(t.presses, other, trigger);
    if k < t.presses.len() {
        let x = if k < i {
            k
        } else {
            k + 1
        };
        assert(t.presses[k] == s.presses[x]);
        lemma_trigger_ids_differ(s.presses[x].number, s.presses[i].number);
    }
}

/// A press that was recorded can be fetched by the id that its scanner was told.
pub proof fn law_a_trigger_finds_its_press(
    s: ListenerView,
    from: Ipv4Addr,
    datagram: Seq<u8>,
    at: u64,
)
    requires
        numbered(s),
        s.next_trigger < u64::MAX,
        dispatched(s, from, datagram, at).1 is Some,
    ensures
        event_of(datagram) matches Ok(EventView::KeyPress(press)) && ({
            let (after, trigger) = dispatched(s, from, datagram, at);
            let t = trigger->Some_0;
            taken(after, t.scanner_id, t.id).1 == Some(press_of(press, t.scanner_id, from, at))
        }),
{
    let (after, trigger) = dispatched(s, from, datagram, at);
    let t = trigger->Some_0;
    law_presses_keep_rising_numbers(s, seq![], from, 0, 0, datagram, seq![], at);
    lemma_press_place(after.presses, t.scanner_id, t.id);
    let last = after.presses.len() - 1;
    let k = press_place(after.presses, t.scanner_id, t.id);
    assert(after.presses[last].number == after.next_trigger);
    if k < last {
        lemma_trigger_ids_differ(after.presses[k].number, after.presses[last].number);
    }
}

proof fn lemma_scanner_from(list: Seq<SubscriberView>, from: Ipv4Addr)
    ensures
        match scanner_from(list, from) {
            Some(scanner) => exists|i: int|
                0 <= i < list.len() && (#[trigger] list[i]).scanner == scanner && list[i].device
                    == from,
            None => forall|i: int| 0 <= i < list.len() ==> (#[trigger] list[i]).device != from,
        },
    decreases list.len(),
{
    if list.len() > 0 && list[0].device != from {
        let rest = list.drop_first();
        lemma_scanner_from(rest, from);
        match scanner_from(rest, from) {
            Some(scanner) => {
                let i = choose|i: int|
                    0 <= i < rest.len() && (#[trigger] rest[i]).scanner == scanner && rest[i].device
                        == from;
                assert(list[i + 1].device == from);
            },
            None => {
                assert forall|i: int| 0 <= i < list.len() implies (#[trigger] list[i]).device
                    != from by {
                    if i > 0 {
                        assert(rest[i - 1] == list[i]);
                    }
                }
            },
        }
    }
}

/// The source address is the identity: a press is told to a scanner that is subscribed with
/// the address it came from, and from an address with which none is, it changes nothing.
pub proof fn law_the_source_address_selects_the_scanner(
    s: ListenerView,
    from: Ipv4Addr,
    datagram: Seq<u8>,
    at: u64,
)
    ensures
        match dispatched(s, from, datagram, at).1 {
            Some(t) => exists|i: int|
                0 <= i < s.subscribers.len() && (#[trigger] s.subscribers[i]).scanner
                    == t.scanner_id && s.subscribers[i].device == from,
            None => dispatched(s, from, datagram, at).0 == s,
        },
        (forall|i: int| 0 <= i < s.subscribers.len() ==> (#[trigger] s.subscribers[i]).device != from)
            ==> dispatched(s, from, datagram, at).1 is None,
{
    lemma_scanner_from(s.subscribers, from);
}

/// What is no panel press disturbs nobody.
pub proof fn law_garbage_changes_nothing(
    s: ListenerView,
    from: Ipv4Addr,
    datagram: Seq<u8>,
    at: u64,
)
    requires
        !(event_of(datagram) is Ok && event_of(datagram)->Ok_0 is KeyPress),
    ensures
        dispatched(s, from, datagram, at) == (s, None::<ScanTriggerView>),
{
}

/// Subscribing again takes the place of the stream before without another socket, and
/// dropping the stream that was replaced does not end the one that replaced it.
pub proof fn law_a_replaced_stream_ends_alone(
    s: ListenerView,
    scanner: Seq<char>,
    device: Ipv4Addr,
    port: u16,
    earlier: u64,
)
    requires
        sound(s),
        s.bound == Some(port),
        earlier <= s.next_epoch,
        s.next_epoch < u64::MAX,
    ensures
        subscribed(s, scanner, device, port).bound == s.bound,
        dropped(subscribed(s, scanner, device, port), scanner, earlier) == subscribed(
            s,
            scanner,
            device,
            port,
        ),
{
    lemma_enrolled(
        s.subscribers,
        SubscriberView { scanner, device, epoch: following(s.next_epoch) },
    );
}

proof fn lemma_gone(list: Seq<SubscriberView>, scanner: Seq<char>)
    requires
        in_order(list),
    ensures
        epoch_of(dismissed(list, scanner), scanner) is None,
    decreases list.len(),
{
    lemma_dismissed(list, scanner);
    lemma_no_epoch(dismissed(list, scanner), scanner);
}

proof fn lemma_no_epoch(list: Seq<SubscriberView>, scanner: Seq<char>)
    requires
        forall|i: int| 0 <= i < list.len() ==> (#[trigger] list[i]).scanner != scanner,
    ensures
        epoch_of(list, scanner) is None,
    decreases list.len(),
{
    if list.len() > 0 {
        let rest = list.drop_first();
        assert(list[0].scanner != scanner);
        assert forall|i: int| 0 <= i < rest.len() implies (#[trigger] rest[i]).scanner != scanner by {
            assert(rest[i] == list[i + 1]);
        }
        lemma_no_epoch(rest, scanner);
    }
}

/// Both ways of stopping can follow each other, in either order and repeatedly: whichever
/// comes second finds nobody to stop.
pub proof fn law_stopping_again_stops_nobody(s: ListenerView, scanner: Seq<char>, epoch: u64)
    requires
        sound(s),
    ensures
        unsubscribed(unsubscribed(s, scanner), scanner) == unsubscribed(s, scanner),
        dropped(unsubscribed(s, scanner), scanner, epoch) == unsubscribed(s, scanner),
        unsubscribed(dropped(s, scanner, epoch), scanner) == unsubscribed(s, scanner),
{
    lemma_gone(s.subscribers, scanner);
    lemma_dismissed_someone(dismissed(s.subscribers, scanner), scanner);
}

proof fn lemma_epoch_at(list: Seq<SubscriberView>, i: int)
    requires
        in_order(list),
        0 <= i < list.len(),
    ensures
        epoch_of(list, list[i].scanner) == Some(list[i].epoch),
    decreases list.len(),
{
    if i > 0 {
        let rest = list.drop_first();
        lemma_tail_in_order(list);
        assert(rest[i - 1] == list[i]);
        assert(precedes(list[0].scanner, list[i].scanner));
        text::lemma_precedes_total(list[0].scanner, list[i].scanner);
        lemma_epoch_at(rest, i - 1);
    }
}

proof fn lemma_enrolled_keeps(list: Seq<SubscriberView>, s: SubscriberView, i: int)
    requires
        0 <= i < list.len() && list[i].scanner != s.scanner,
    ensures
        enrolled(list, s).contains(list[i]),
        enrolled(list, s).contains(s),
    decreases list.len(),
{
    let p = enrolled(list, s);
    let rest = list.drop_first();
    if list[0].scanner == s.scanner {
        assert(p[i] == list[i]);
        assert(p[0] == s);
    } else if precedes(s.scanner, list[0].scanner) {
        assert(p[i + 1] == list[i]);
        assert(p[0] == s);
    } else {
        let q = enrolled(rest, s);
        assert(p[0] == list[0]);
        lemma_enrolled_holds(rest, s);
        let k = choose|k: int| 0 <= k < q.len() && q[k] == s;
        assert(p[k + 1] == s);
        if i > 0 {
            assert(rest[i - 1] == list[i]);
            lemma_enrolled_keeps(rest, s, i - 1);
            let j = choose|j: int| 0 <= j < q.len() && q[j] == list[i];
            assert(p[j + 1] == list[i]);
        }
    }
}

proof fn lemma_enrolled_holds(list: Seq<SubscriberView>, s: SubscriberView)
    ensures
        enrolled(list, s).contains(s),
    decreases list.len(),
{
    let p = enrolled(list, s);
    if list.len() == 0 || list[0].scanner == s.scanner || precedes(s.scanner, list[0].scanner) {
        assert(p[0] == s);
    } else {
        let q = enrolled(list.drop_first(), s);
        lemma_enrolled_holds(list.drop_first(), s);
        let k = choose|k: int| 0 <= k < q.len() && q[k] == s;
        assert(p[k + 1] == s);
    }
}

proof fn lemma_dismissed_keeps(list: Seq<SubscriberView>, scanner: Seq<char>, i: int)
    requires
        0 <= i < list.len() && list[i].scanner != scanner,
    ensures
        dismissed(list, scanner).contains(list[i]),
    decreases list.len(),
{
    let p = dismissed(list, scanner);
    let rest = list.drop_first();
    if list[0].scanner == scanner {
        assert(p[i - 1] == list[i]);
    } else if i == 0 {
        assert(p[0] == list[0]);
    } else {
        assert(rest[i - 1] == list[i]);
        lemma_dismissed_keeps(rest, scanner, i - 1);
        let q = dismissed(rest, scanner);
        let j = choose|j: int| 0 <= j < q.len() && q[j] == list[i];
        assert(p[j + 1] == list[i]);
    }
}

/// Whoever subscribes is subscribed with the device it named, under an epoch of its own, and
/// whoever leaves is not; every other subscription stays as it was, and no press is lost by
/// either.
pub proof fn law_subscriptions_stand_apart(
    s: ListenerView,
    scanner: Seq<char>,
    device: Ipv4Addr,
    port: u16,
    other: SubscriberView,
)
    requires
        sound(s),
        other.scanner != scanner,
    ensures
        ({
            let t = subscribed(s, scanner, device, port);
            &&& t.subscribers.contains(
                SubscriberView { scanner, device, epoch: following(s.next_epoch) },
            )
            &&& epoch_of(t.subscribers, scanner) == Some(t.next_epoch)
            &&& t.subscribers.contains(other) <==> s.subscribers.contains(other)
            &&& t.bound == Some(port) && t.presses == s.presses && t.next_trigger
                == s.next_trigger && t.requested == s.requested
        }),
        ({
            let t = unsubscribed(s, scanner);
            &&& epoch_of(t.subscribers, scanner) is None
            &&& t.subscribers.contains(other) <==> s.subscribers.contains(other)
            &&& t.subscribers.len() > 0 ==> t.bound == s.bound
            &&& t.subscribers.len() == 0 ==> t.bound is None
            &&& t.presses == s.presses && t.next_trigger == s.next_trigger && t.next_epoch
                == s.next_epoch && !t.closing
        }),
        broken(s).subscribers.len() == 0 && broken(s).presses == s.presses,
{
    let mine = SubscriberView { scanner, device, epoch: following(s.next_epoch) };
    let list = s.subscribers;
    let (p, q) = (enrolled(list, mine), dismissed(list, scanner));
    lemma_enrolled(list, mine);
    lemma_enrolled_holds(list, mine);
    lemma_dismissed(list, scanner);
    lemma_gone(list, scanner);
    if list.contains(other) {
        let i = choose|i: int| 0 <= i < list.len() && list[i] == other;
        lemma_enrolled_keeps(list, mine, i);
        lemma_dismissed_keeps(list, scanner, i);
    }
    if p.contains(other) {
        let i = choose|i: int| 0 <= i < p.len() && p[i] == other;
        assert(p[i] == mine || list.contains(p[i]));
    }
    if q.contains(other) {
        let i = choose|i: int| 0 <= i < q.len() && q[i] == other;
        assert(list.contains(q[i]));
    }
}

/// A stream that goes away takes its own subscription with it, and the socket where it was the
/// last; under any other epoch nothing happens.
pub proof fn law_a_stream_takes_its_subscription_along(s: ListenerView, i: int, epoch: u64)
    requires
        sound(s),
        0 <= i < s.subscribers.len(),
    ensures
        ({
            let mine = s.subscribers[i];
            let t = dropped(s, mine.scanner, mine.epoch);
            &&& epoch_of(t.subscribers, mine.scanner) is None
            &&& t.closing <==> t.bound is None
            &&& t.bound is None <==> t.subscribers.len() == 0
            &&& t.presses == s.presses
            &&& epoch != mine.epoch ==> dropped(s, mine.scanner, epoch) == s
        }),
{
    lemma_epoch_at(s.subscribers, i);
    lemma_gone(s.subscribers, s.subscribers[i].scanner);
}

/// A panel press from the address of a subscribed scanner is told to it, under the key that was
/// pressed, and is the last one on record, with everything that it said. Where one scanner has
/// that address, it is told to that one.
pub proof fn law_every_press_is_told(
    s: ListenerView,
    i: int,
    datagram: Seq<u8>,
    press: KeyPressView,
    at: u64,
)
    requires
        0 <= i < s.subscribers.len(),
        event_of(datagram) matches Ok(EventView::KeyPress(p)) && p == press,
    ensures
        ({
            let from = s.subscribers[i].device;
            let (t, told) = dispatched(s, from, datagram, at);
            &&& told is Some && told->Some_0.button == press.function.index()
            &&& (forall|j: int|
                0 <= j < s.subscribers.len() && (#[trigger] s.subscribers[j]).device == from ==> j
                    == i) ==> told->Some_0.scanner_id == s.subscribers[i].scanner
            &&& t.presses.len() > 0 && t.presses.last().press.device == from
            &&& t.presses.last().press.scanner == told->Some_0.scanner_id
            &&& t.presses.last().press.function.index() == press.function.index()
            &&& t.presses.last().press.user == press.user && t.presses.last().press.at == at
            &&& told->Some_0.id == trigger_id(t.presses.last().number)
            &&& t.subscribers == s.subscribers && t.bound == s.bound
        }),
{
    let from = s.subscribers[i].device;
    lemma_scanner_from(s.subscribers, from);
    if scanner_from(s.subscribers, from) is None {
        assert(s.subscribers[i].device != from);
    }
}

/// The record holds the newest sixteen presses, oldest first: another one comes last, and the
/// oldest goes only where there would be more.
pub proof fn law_only_the_oldest_press_is_forgotten(s: ListenerView, press: PressView, i: int)
    requires
        s.presses.len() <= 16,
        0 <= i < s.presses.len(),
    ensures
        recorded(s, press).presses.last().press == press,
        s.presses.len() < 16 ==> recorded(s, press).presses.len() == s.presses.len() + 1
            && recorded(s, press).presses[i] == s.presses[i],
        s.presses.len() == 16 ==> recorded(s, press).presses.len() == 16 && (i > 0 ==> recorded(
            s,
            press,
        ).presses[i - 1] == s.presses[i]),
{
}

/// A press on record is given to the scanner that asks for it by its id, and leaves the record;
/// all the others stay, in order. Asking for what is not there changes nothing.
pub proof fn law_taking_a_press_leaves_the_others(
    s: ListenerView,
    i: int,
    scanner: Seq<char>,
    trigger: Seq<char>,
)
    requires
        numbered(s),
        0 <= i < s.presses.len(),
    ensures
        ({
            let p = s.presses[i];
            let (t, got) = taken(s, p.press.scanner, trigger_id(p.number));
            &&& got == Some(p.press)
            &&& t.presses == s.presses.take(i) + s.presses.skip(i + 1)
            &&& t.subscribers == s.subscribers && t.next_trigger == s.next_trigger
        }),
        taken(s, scanner, trigger).1 is None ==> taken(s, scanner, trigger).0 == s,
        taken(s, scanner, trigger).1 matches Some(p) ==> p.scanner == scanner,
{
    let p = s.presses[i];
    lemma_press_place(s.presses, scanner, trigger);
    lemma_press_place(s.presses, p.press.scanner, trigger_id(p.number));
    let k = press_place(s.presses, p.press.scanner, trigger_id(p.number));
    if k < i {
        lemma_trigger_ids_differ(s.presses[k].number, s.presses[i].number);
    }
    if k > i {
        assert(!(trigger_id(s.presses[i].number) == trigger_id(p.number)
            && s.presses[i].press.scanner == p.press.scanner));
    }
    assert(s.presses.remove(i) =~= s.presses.take(i) + s.presses.skip(i + 1));
}

/// A socket is opened only where none is, and then it is what came of opening it that counts:
/// a port that is in use is taken, and any other failure keeps its reason.
pub proof fn law_an_open_socket_is_used_again(s: ListenerView, port: u16, error: String)
    ensures
        s.bound is Some ==> socket_for(s, None) == Ok::<u16, BindErrorView>(s.bound->Some_0)
            && socket_for(s, Some(SocketOutcome::InUse)) == Ok::<u16, BindErrorView>(
            s.bound->Some_0,
        ),
        s.bound is None ==> socket_for(s, Some(SocketOutcome::Bound(port))) == Ok::<
            u16,
            BindErrorView,
        >(port),
        s.bound is None ==> socket_for(s, Some(SocketOutcome::InUse)) == Err::<u16, BindErrorView>(
            BindErrorView::Taken { port: s.requested },
        ),
        s.bound is None ==> socket_for(s, Some(SocketOutcome::Failed(error))) == Err::<
            u16,
            BindErrorView,
        >(BindErrorView::Io { port: s.requested, error: error@ }),
{
}

/// Presses and subscriptions are numbered one by one, and start over from zero behind the
/// largest number; each press has an id of its own.
pub proof fn law_numbers_count_up(n: u64, m: u64)
    ensures
        n < u64::MAX ==> following(n) == n + 1,
        following(u64::MAX) == 0,
        n != m ==> following(n) != following(m) && trigger_id(n) != trigger_id(m),
        text::ends(trigger_id(n), decimal(n as nat)),
{
    if n != m {
        lemma_trigger_ids_differ(n, m);
    }
    text::lemma_two_parts("press-"@, decimal(n as nat));
}

/// A socket that cannot be bound is told with its port, and with the reason where there is one.
pub proof fn law_a_bind_error_names_its_port(port: u16, error: Seq<char>)
    ensures
        text::begins(bind_error_text(BindErrorView::Taken { port }), "UDP/"@ + decimal(port as nat)),
        text::begins(
            bind_error_text(BindErrorView::Io { port, error }),
            "could not bind UDP/"@ + decimal(port as nat),
        ),
        text::ends(bind_error_text(BindErrorView::Io { port, error }), error),
{
    text::lemma_two_parts("UDP/"@ + decimal(port as nat), " is already bound by another process"@);
    let a = "could not bind UDP/"@ + decimal(port as nat);
    text::lemma_two_parts(a, ": "@ + error);
    text::lemma_two_parts(a + ": "@, error);
    assert(a + (": "@ + error) =~= a + ": "@ + error);
}

} // verus!
