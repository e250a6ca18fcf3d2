//! Publish/subscribe channels: each channel has a name and the clients
//! listening to it, each with an id and the sending end of a queue of
//! messages.  Two channels are special: `Monitor` and `Logger`.
//!
//! Channel names are strings, and vstd specifies `std`'s hash maps only for
//! keys it knows to hash consistently (integers and `bool`); so the channels
//! are held in a vector, with the uniqueness of names as its invariant.
use vstd::prelude::*;
use crate::matcher::{matcher, glob_matches};
use crate::text::{int_str, int_to_string};
use std::sync::mpsc::{Receiver, Sender};

verus! {

/// The name of the channel of the monitors.
pub const MONITOR: &'static str = "Monitor";

/// The name of the channel of the logger.
pub const LOGGER: &'static str = "Logger";

/// The id the monitors and the logger listen with.
pub const SPECIAL_CHANNELS_ID: u32 = 0;

/// `std::sync::mpsc::Sender`, the sending end of a queue.
#[verifier::external_type_specification]
#[verifier::external_body]
#[verifier::reject_recursive_types(T)]
pub struct ExSender<T>(Sender<T>);

/// `std::sync::mpsc::Receiver`, the receiving end of a queue.
#[verifier::external_type_specification]
#[verifier::external_body]
#[verifier::reject_recursive_types(T)]
pub struct ExReceiver<T>(Receiver<T>);

/// Calls `std::sync::mpsc::channel` for a new queue of strings.  Nothing is
/// stated of the two ends.
#[verifier::external_body]
fn new_queue() -> (Sender<String>, Receiver<String>) {
    std::sync::mpsc::channel()
}

/// Calls `Sender::clone`, which gives another sending end of the same
/// queue: the contract states the copy equal to `s`, as a queue.
#[verifier::external_body]
pub(crate) fn copy_sender(s: &Sender<String>) -> (r: Sender<String>)
    ensures
        r == *s,
{
    s.clone()
}

/// Calls `Sender::send` on `queue` with `msg`.  The contract notes the pair
/// in `outbox`, a record for proofs that holds nothing at run time.  Not
/// stated: whether the message is received; when the receiving end is gone,
/// `send` fails and its error is dropped.
#[verifier::external_body]
fn post(outbox: &mut Outbox, queue: &Sender<String>, msg: String)
    ensures
        final(outbox).handed() == old(outbox).handed().push((*queue, msg@)),
{
    let _ = queue.send(msg);
}

/// The literal texts of the special channels.
pub open spec fn monitor_name() -> Seq<char> {
    seq!['M', 'o', 'n', 'i', 't', 'o', 'r']
}

/// The name of the logger channel.
pub open spec fn logger_name() -> Seq<char> {
    seq!['L', 'o', 'g', 'g', 'e', 'r']
}

/// A client listening to a channel: its id and the sending end of its
/// queue of messages.
pub type Listener = (u32, Sender<String>);

/// The channels in order, each with its name and its listeners in order.
pub type ChannelsView = Seq<(Seq<char>, Seq<Listener>)>;

/// A message handed to a queue: the queue's sending end and the text.
pub type Handed = (Sender<String>, Seq<char>);

/// A channel and the clients listening to it.
pub struct Channel {
    name: String,
    listeners: Vec<Listener>,
}

/// The messages handed to queues, in order: a record for proofs, with no
/// content at run time.
pub struct Outbox {
    handed: Ghost<Seq<Handed>>,
}

impl Outbox {
    /// Each message handed to a queue, with the queue, in order.
    pub closed spec fn handed(&self) -> Seq<Handed> {
        self.handed@
    }
}

/// The channels and the clients listening to each.
pub struct Channels {
    channels: Vec<Channel>,
    outbox: Outbox,
}

/// The messages `send` hands out for `msg` on channel `c`: one to the queue
/// of each listener of `c`, in order.
pub open spec fn deliveries(s: ChannelsView, c: Seq<char>, msg: Seq<char>) -> Seq<Handed> {
    let p = channel_pos(s, c);
    if p >= 0 {
        s[p].1.map_values(|l: Listener| (l.1, msg))
    } else {
        Seq::empty()
    }
}

/// The logger's message for the request `msg` of client `id`:
/// `<id>  <msg>`.
pub open spec fn logger_line(id: u32, msg: Seq<char>) -> Seq<char> {
    int_str(id as int) + seq![' ', ' '] + msg
}

/// The monitors' message for the request `msg` of client `id`:
/// `Client: <id> <msg>`.
pub open spec fn monitor_line(id: u32, msg: Seq<char>) -> Seq<char> {
    seq!['C', 'l', 'i', 'e', 'n', 't', ':', ' '] + int_str(id as int) + seq![' '] + msg
}

/// Each name once.
pub open spec fn names_unique(s: ChannelsView) -> bool {
    forall|i: int, j: int| 0 <= i < s.len() && 0 <= j < s.len() && i != j ==> s[i].0 != s[j].0
}

/// The position of the channel named `c`, or -1.
pub open spec fn channel_pos(s: ChannelsView, c: Seq<char>) -> int {
    if exists|i: int| 0 <= i < s.len() && s[i].0 == c {
        choose|i: int| 0 <= i < s.len() && s[i].0 == c
    } else {
        -1
    }
}

/// The channels after the listener `l` subscribes to `c`: it listens last
/// to the channel `c`, which is added at the end when there is none.
pub open spec fn subscribed(s: ChannelsView, c: Seq<char>, l: Listener) -> ChannelsView {
    let p = channel_pos(s, c);
    if p >= 0 {
        s.update(p, (c, s[p].1.push(l)))
    } else {
        s.push((c, seq![l]))
    }
}

/// The listeners of `ls` whose id is not `id`, in order.
pub open spec fn other_listeners(ls: Seq<Listener>, id: u32) -> Seq<Listener>
    decreases ls.len(),
{
    if ls.len() == 0 {
        ls
    } else {
        let p = other_listeners(ls.drop_last(), id);
        if ls.last().0 != id {
            p.push(ls.last())
        } else {
            p
        }
    }
}

/// The channels after `id` unsubscribes from `c`: its entries leave the
/// channel, which goes when nobody listens to it any more.
pub open spec fn unsubscribed(s: ChannelsView, c: Seq<char>, id: u32) -> ChannelsView {
    let p = channel_pos(s, c);
    if p >= 0 {
        let kept = other_listeners(s[p].1, id);
        if kept.len() == 0 {
            s.remove(p)
        } else {
            s.update(p, (c, kept))
        }
    } else {
        s
    }
}

/// The number of listeners of `c`.
pub open spec fn listeners_of(s: ChannelsView, c: Seq<char>) -> nat {
    let p = channel_pos(s, c);
    if p >= 0 {
        s[p].1.len()
    } else {
        0
    }
}

/// The names of the channels that match `pattern`, other than the special
/// ones, in order.
pub open spec fn channels_matching(s: ChannelsView, pattern: Seq<char>) -> Seq<
    Seq<char>,
>
    decreases s.len(),
{
    if s.len() == 0 {
        Seq::empty()
    } else {
        let pre = channels_matching(s.drop_last(), pattern);
        let c = s.last().0;
        if glob_matches(c, pattern) && c != monitor_name() && c != logger_name() {
            pre.push(c)
        } else {
            pre
        }
    }
}

pub proof fn lemma_channel_pos(s: ChannelsView, c: Seq<char>, i: int)
    requires
        names_unique(s),
        0 <= i < s.len(),
        s[i].0 == c,
    ensures
        channel_pos(s, c) == i,
{
}

pub proof fn lemma_channel_absent(s: ChannelsView, c: Seq<char>)
    requires
        forall|i: int| 0 <= i < s.len() ==> s[i].0 != c,
    ensures
        channel_pos(s, c) == -1,
{
}

impl View for Channels {
    type V = ChannelsView;

    closed spec fn view(&self) -> ChannelsView {
        self.channels@.map_values(|ch: Channel| (ch.name@, ch.listeners@))
    }
}

impl Channels {
    /// No two channels have the same name.
    pub closed spec fn wf(&self) -> bool {
        names_unique(self@)
    }

    /// The messages handed to listeners' queues so far, each with its
    /// queue, in order.
    pub closed spec fn sent(&self) -> Seq<Handed> {
        self.outbox.handed()
    }

    /// The channels `Monitor` and `Logger`, with no listener.
    pub fn new() -> (r: Channels)
        ensures
            r.wf(),
            r@ == seq![
                (monitor_name(), Seq::<Listener>::empty()),
                (logger_name(), Seq::<Listener>::empty()),
            ],
            r.sent() == Seq::<Handed>::empty(),
    {
        proof {
            reveal_strlit("Monitor");
            reveal_strlit("Logger");
        }
        let mut channels: Vec<Channel> = Vec::new();
        channels.push(Channel { name: String::from_str(MONITOR), listeners: Vec::new() });
        channels.push(Channel { name: String::from_str(LOGGER), listeners: Vec::new() });
        let r = Channels { channels, outbox: Outbox { handed: Ghost(Seq::empty()) } };
        proof {
            assert("Monitor"@ =~= monitor_name());
            assert("Logger"@ =~= logger_name());
            assert(r@ =~= seq![
                (monitor_name(), Seq::<Listener>::empty()),
                (logger_name(), Seq::<Listener>::empty()),
            ]);
        }
        r
    }

    /// The position of the channel named `channel`.
    fn position(&self, channel: &str) -> (r: Option<usize>)
        requires
            self.wf(),
        ensures
            match r {
                Some(i) => i < self@.len() && channel_pos(self@, channel@) == i,
                None => channel_pos(self@, channel@) == -1,
            },
    {
        let c = String::from_str(channel);
        let mut i: usize = 0;
        while i < self.channels.len()
            invariant
                self.wf(),
                c@ == channel@,
                i <= self.channels@.len(),
                forall|j: int| 0 <= j < i ==> self@[j].0 != channel@,
            decreases self.channels.len() - i,
        {
            if self.channels[i].name == c {
                proof {
                    lemma_channel_pos(self@, channel@, i as int);
                }
                return Some(i);
            }
            i = i + 1;
        }
        proof {
            lemma_channel_absent(self@, channel@);
        }
        None
    }

    /// `id` listens to `channel` with the queue `sender` (see `subscribed`).
    pub fn subscribe(&mut self, channel: &str, sender: Sender<String>, id: u32)
        requires
            old(self).wf(),
        ensures
            final(self).wf(),
            final(self)@ == subscribed(old(self)@, channel@, (id, sender)),
            final(self).sent() == old(self).sent(),
    {
        let ghost l: Listener = (id, sender);
        match self.position(channel) {
            Some(i) => {
                let ghost s0 = self@;
                let mut ch = Channel { name: String::new(), listeners: Vec::new() };
                std::mem::swap(&mut ch, &mut self.channels[i]);
                let ghost ls0 = ch.listeners@;
                ch.listeners.push((id, sender));
                self.channels.set(i, ch);
                proof {
                    assert(self@ =~= s0.update(i as int, (channel@, ls0.push(l))));
                    assert(names_unique(self@)) by {
                        assert forall|x: int, y: int|
                            0 <= x < self@.len() && 0 <= y < self@.len() && x != y implies self@[x].0
                            != self@[y].0 by {
                            assert(self@[x].0 == s0[x].0);
                            assert(self@[y].0 == s0[y].0);
                        }
                    }
                }
            },
            None => {
                let ghost s0 = self@;
                let mut listeners: Vec<Listener> = Vec::new();
                listeners.push((id, sender));
                self.channels.push(Channel { name: String::from_str(channel), listeners });
                proof {
                    assert(self@ =~= s0.push((channel@, seq![l])));
                    assert(names_unique(self@)) by {
                        assert forall|x: int, y: int|
                            0 <= x < self@.len() && 0 <= y < self@.len() && x != y implies self@[x].0
                            != self@[y].0 by {
                            if x < s0.len() {
                                assert(self@[x].0 == s0[x].0);
                            }
                            if y < s0.len() {
                                assert(self@[y].0 == s0[y].0);
                            }
                        }
                    }
                }
            },
        }
    }

    /// `id` stops listening to `channel` (see `unsubscribed`).
    pub fn unsubscribe(&mut self, channel: &str, id: u32)
        requires
            old(self).wf(),
        ensures
            final(self).wf(),
            final(self)@ == unsubscribed(old(self)@, channel@, id),
            final(self).sent() == old(self).sent(),
    {
        match self.position(channel) {
            Some(i) => {
                let ghost s0 = self@;
                let mut ch = Channel { name: String::new(), listeners: Vec::new() };
                std::mem::swap(&mut ch, &mut self.channels[i]);
                let ghost ls0 = ch.listeners@;
                let mut kept: Vec<Listener> = Vec::new();
                let mut rest = ch.listeners;
                ch.listeners = Vec::new();
                let ghost mut taken: Seq<Listener> = Seq::empty();
                proof {
                    assert(taken + rest@ =~= ls0);
                }
                while rest.len() > 0
                    invariant
                        taken + rest@ == ls0,
                        kept@ == other_listeners(taken, id),
                    decreases rest.len(),
                {
                    let ghost r0 = rest@;
                    let ghost k0 = kept@;
                    let item = rest.remove(0);
                    let x = item.0;
                    let ghost it = item;
                    if x != id {
                        kept.push(item);
                    }
                    proof {
                        assert(r0[0] == it);
                        assert(rest@ =~= r0.drop_first());
                        assert(taken.push(it).drop_last() =~= taken);
                        taken = taken.push(it);
                        assert(taken + rest@ =~= ls0);
                    }
                }
                proof {
                    assert(taken =~= ls0);
                }
                if kept.len() == 0 {
                    self.channels.remove(i);
                    proof {
                        assert(self@ =~= s0.remove(i as int));
                        assert(names_unique(self@)) by {
                            assert forall|x: int, y: int|
                                0 <= x < self@.len() && 0 <= y < self@.len() && x != y implies self@[x].0
                                != self@[y].0 by {
                                let ox = if x < i { x } else { x + 1 };
                                let oy = if y < i { y } else { y + 1 };
                                assert(self@[x].0 == s0[ox].0);
                                assert(self@[y].0 == s0[oy].0);
                            }
                        }
                    }
                } else {
                    let ghost kv = kept@;
                    ch.listeners = kept;
                    self.channels.set(i, ch);
                    proof {
                        assert(self@ =~= s0.update(i as int, (channel@, kv)));
                        assert(names_unique(self@)) by {
                            assert forall|x: int, y: int|
                                0 <= x < self@.len() && 0 <= y < self@.len() && x != y implies self@[x].0
                                != self@[y].0 by {
                                assert(self@[x].0 == s0[x].0);
                                assert(self@[y].0 == s0[y].0);
                            }
                        }
                    }
                }
            },
            None => {},
        }
    }

    /// The logger listens to the channel `Logger` with the queue
    /// `logger_sender`.
    pub fn add_logger(&mut self, logger_sender: Sender<String>)
        requires
            old(self).wf(),
        ensures
            final(self).wf(),
            final(self)@ == subscribed(
                old(self)@,
                logger_name(),
                (SPECIAL_CHANNELS_ID, logger_sender),
            ),
            final(self).sent() == old(self).sent(),
    {
        proof {
            reveal_strlit("Logger");
            assert(LOGGER@ =~= logger_name());
        }
        self.subscribe(LOGGER, logger_sender, SPECIAL_CHANNELS_ID);
    }

    /// A new monitor listens to the channel `Monitor` with a new queue; its
    /// messages arrive at the receiving end returned.
    pub fn add_monitor(&mut self) -> (r: Receiver<String>)
        requires
            old(self).wf(),
        ensures
            final(self).wf(),
            exists|q: Sender<String>|
                final(self)@ == subscribed(old(self)@, monitor_name(), (SPECIAL_CHANNELS_ID, q)),
            final(self).sent() == old(self).sent(),
    {
        proof {
            reveal_strlit("Monitor");
            assert(MONITOR@ =~= monitor_name());
        }
        let (s, r) = new_queue();
        let ghost q = s;
        self.subscribe(MONITOR, s, SPECIAL_CHANNELS_ID);
        proof {
            assert(self@ == subscribed(old(self)@, monitor_name(), (SPECIAL_CHANNELS_ID, q)));
        }
        r
    }

    /// Hands `msg` to the queue of each listener of `channel`, in order, and
    /// gives their number.
    pub fn send(&mut self, channel: &str, msg: &str) -> (r: i32)
        requires
            old(self).wf(),
        ensures
            final(self).wf(),
            final(self)@ == old(self)@,
            final(self).sent() == old(self).sent() + deliveries(old(self)@, channel@, msg@),
            r == listeners_of(old(self)@, channel@) as i32,
    {
        match self.position(channel) {
            Some(i) => {
                let ghost s0 = self.sent();
                let ghost c0 = self.channels@;
                let ch = &self.channels[i];
                let ghost ls = ch.listeners@;
                proof {
                    assert(self@[i as int].1 == ls);
                    assert(ls.take(0).map_values(|l: Listener| (l.1, msg@)) =~= Seq::<Handed>::empty());
                }
                let mut k: usize = 0;
                while k < ch.listeners.len()
                    invariant
                        k <= ch.listeners@.len(),
                        ls == ch.listeners@,
                        self.channels@ == c0,
                        self.sent() == s0 + ls.take(k as int).map_values(|l: Listener| (l.1, msg@)),
                    decreases ch.listeners.len() - k,
                {
                    post(&mut self.outbox, &ch.listeners[k].1, String::from_str(msg));
                    proof {
                        assert(ls.take(k + 1).map_values(|l: Listener| (l.1, msg@)) =~= ls.take(
                            k as int,
                        ).map_values(|l: Listener| (l.1, msg@)).push((ls[k as int].1, msg@)));
                    }
                    k = k + 1;
                }
                proof {
                    assert(ls.take(k as int) =~= ls);
                }
                #[verifier::truncate] (ch.listeners.len() as i32)
            },
            None => {
                proof {
                    assert(deliveries(self@, channel@, msg@) =~= Seq::<Handed>::empty());
                }
                0
            },
        }
    }

    /// Sends `<id>  <msg>` to the logger.
    pub fn send_logger(&mut self, id: u32, msg: &str)
        requires
            old(self).wf(),
        ensures
            final(self).wf(),
            final(self)@ == old(self)@,
            final(self).sent() == old(self).sent() + deliveries(
                old(self)@,
                logger_name(),
                logger_line(id, msg@),
            ),
    {
        proof {
            reveal_strlit("  ");
            reveal_strlit("Logger");
            assert(LOGGER@ =~= logger_name());
        }
        let mut text = int_to_string(id as i128);
        text.append("  ");
        text.append(msg);
        proof {
            assert(text@ =~= logger_line(id, msg@));
        }
        self.send(LOGGER, text.as_str());
    }

    /// Sends `Client: <id> <msg>` to the monitors.
    pub fn send_monitor(&mut self, id: u32, msg: &str)
        requires
            old(self).wf(),
        ensures
            final(self).wf(),
            final(self)@ == old(self)@,
            final(self).sent() == old(self).sent() + deliveries(
                old(self)@,
                monitor_name(),
                monitor_line(id, msg@),
            ),
    {
        proof {
            reveal_strlit("Client: ");
            reveal_strlit(" ");
            reveal_strlit("Monitor");
            assert(MONITOR@ =~= monitor_name());
        }
        let mut text = String::from_str("Client: ");
        let n = int_to_string(id as i128);
        text.append(n.as_str());
        text.append(" ");
        text.append(msg);
        proof {
            assert(text@ =~= monitor_line(id, msg@));
        }
        self.send(MONITOR, text.as_str());
    }

    /// The names of the channels that match `pattern`, other than `Monitor`
    /// and `Logger` (see `channels_matching`).
    pub fn get_channels(&self, pattern: &str) -> (r: Vec<String>)
        requires
            self.wf(),
        ensures
            r@.len() == channels_matching(self@, pattern@).len(),
            forall|i: int|
                0 <= i < r@.len() ==> (#[trigger] r@[i])@ == channels_matching(self@, pattern@)[i],
    {
        proof {
            reveal_strlit("Monitor");
            reveal_strlit("Logger");
        }
        let monitor = String::from_str(MONITOR);
        let logger = String::from_str(LOGGER);
        let ghost s = self@;
        let mut r: Vec<String> = Vec::new();
        let mut i: usize = 0;
        proof {
            assert(s.take(0) =~= Seq::<(Seq<char>, Seq<Listener>)>::empty());
        }
        while i < self.channels.len()
            invariant
                s == self@,
                monitor@ == monitor_name(),
                logger@ == logger_name(),
                i <= self.channels@.len(),
                r@.len() == channels_matching(s.take(i as int), pattern@).len(),
                forall|q: int|
                    0 <= q < r@.len() ==> (#[trigger] r@[q])@ == channels_matching(
                        s.take(i as int),
                        pattern@,
                    )[q],
            decreases self.channels.len() - i,
        {
            proof {
                assert(s.take(i + 1).drop_last() =~= s.take(i as int));
                assert(s.take(i + 1).last().0 == self.channels@[i as int].name@);
            }
            let name = &self.channels[i].name;
            if matcher(name.as_str(), pattern) && *name != monitor && *name != logger {
                r.push(name.clone());
            }
            i = i + 1;
        }
        proof {
            assert(s.take(i as int) =~= s);
        }
        r
    }

    /// The number of listeners of `channel`.
    pub fn subcriptors_number(&self, channel: &str) -> (r: usize)
        requires
            self.wf(),
        ensures
            r == listeners_of(self@, channel@),
    {
        match self.position(channel) {
            Some(i) => self.channels[i].listeners.len(),
            None => 0,
        }
    }
}

} // verus!
