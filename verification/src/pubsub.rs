//! What the requests of subscribers and publishers do to the channels and
//! the subscriptions of a client, and the texts requests are shown as.
use vstd::prelude::*;
use crate::channels::{Channels, ChannelsView, Handed, Listener, subscribed, unsubscribed, listeners_of, channels_matching, deliveries,
    monitor_name, copy_sender, MONITOR, SPECIAL_CHANNELS_ID};
use crate::databasehelper::{spaced, strings_view, spaced_text};
use crate::dispatch::ReponseForm;
use crate::request::{Request, RequestError, ServerRequest, SuscriberRequest, PubSubSubcommand,
    PublisherRequest, Reponse, Query, query_line, spaced_str, ReqForm};
use crate::strvec::strs_view;
use crate::text::{int_str, int_to_string};
use std::sync::mpsc::Sender;
use crate::server_conf::{ServerConf, ServerError, ServerReplyForm, server_reply_text,
    server_error_text, option_number, option_value, is_numeric_option, is_fixed_option};
use crate::conftable::{matching_lines, put};
use crate::text::spec_parse_i64;

verus! {

/// The lines joined by newlines.
pub open spec fn joined(lines: Seq<Seq<char>>) -> Seq<char>
    decreases lines.len(),
{
    if lines.len() == 0 {
        Seq::empty()
    } else if lines.len() == 1 {
        lines[0]
    } else {
        joined(lines.drop_last()) + seq!['\n'] + lines.last()
    }
}

/// The answer line for one channel: `<word> <channel> <count> `.
pub open spec fn count_line(word: Seq<char>, channel: Seq<char>, count: nat) -> Seq<char> {
    spaced(seq![word, channel, int_str(count as int)])
}

/// The subscriptions, the channels and the answer lines after subscribing
/// to each of `names` in turn: a channel not subscribed yet is added to the
/// subscriptions and the listener `l` listens to it.
pub open spec fn subscribe_all(
    subs: Seq<Seq<char>>,
    chans: ChannelsView,
    names: Seq<Seq<char>>,
    l: Listener,
) -> (Seq<Seq<char>>, ChannelsView, Seq<Seq<char>>)
    decreases names.len(),
{
    if names.len() == 0 {
        (subs, chans, Seq::empty())
    } else {
        let pre = subscribe_all(subs, chans, names.drop_last(), l);
        let c = names.last();
        let (s1, c1) = if pre.0.contains(c) {
            (pre.0, pre.1)
        } else {
            (pre.0.push(c), subscribed(pre.1, c, l))
        };
        (s1, c1, pre.2.push(count_line("subscribe"@, c, s1.len())))
    }
}

/// `subs` without `c`.
pub open spec fn without_name(subs: Seq<Seq<char>>, c: Seq<char>) -> Seq<Seq<char>>
    decreases subs.len(),
{
    if subs.len() == 0 {
        subs
    } else {
        let p = without_name(subs.drop_last(), c);
        if subs.last() != c {
            p.push(subs.last())
        } else {
            p
        }
    }
}

/// The subscriptions, the channels and the answer lines after unsubscribing
/// from each of `names` in turn: a subscribed channel leaves the
/// subscriptions and `id` stops listening to it.
pub open spec fn unsubscribe_all(
    subs: Seq<Seq<char>>,
    chans: ChannelsView,
    names: Seq<Seq<char>>,
    id: u32,
) -> (Seq<Seq<char>>, ChannelsView, Seq<Seq<char>>)
    decreases names.len(),
{
    if names.len() == 0 {
        (subs, chans, Seq::empty())
    } else {
        let pre = unsubscribe_all(subs, chans, names.drop_last(), id);
        let c = names.last();
        let (s1, c1) = if pre.0.contains(c) {
            (without_name(pre.0, c), unsubscribed(pre.1, c, id))
        } else {
            (pre.0, pre.1)
        };
        (s1, c1, pre.2.push(count_line("unsubscribe"@, c, s1.len())))
    }
}

/// The count answer line, computed.
fn count_text(word: &str, channel: &str, count: usize) -> (r: String)
    ensures
        r@ == count_line(word@, channel@, count as nat),
{
    let n = int_to_string(count as i128);
    let parts: Vec<&str> = vec![word, channel, n.as_str()];
    proof {
        assert(strs_view(parts@) =~= seq![word@, channel@, int_str(count as int)]);
    }
    spaced_str(&parts)
}

/// The position of `c` among the strings, if any.
fn find_name(v: &Vec<String>, c: &str) -> (r: bool)
    ensures
        r == strings_view(v@).contains(c@),
{
    match crate::strvec::position_of(v, c) {
        Some(i) => {
            proof {
                assert(strings_view(v@)[i as int] == c@);
            }
            true
        },
        None => false,
    }
}

/// The strings without those equal to `c`.
fn drop_name(v: &Vec<String>, c: &str) -> (r: Vec<String>)
    ensures
        strings_view(r@) == without_name(strings_view(v@), c@),
{
    let cs = String::from_str(c);
    let ghost vv = strings_view(v@);
    let mut out: Vec<String> = Vec::new();
    let mut i: usize = 0;
    proof {
        assert(vv.take(0) =~= Seq::<Seq<char>>::empty());
    }
    while i < v.len()
        invariant
            i <= v@.len(),
            cs@ == c@,
            vv == strings_view(v@),
            strings_view(out@) == without_name(vv.take(i as int), c@),
        decreases v.len() - i,
    {
        proof {
            assert(vv.take(i + 1).drop_last() =~= vv.take(i as int));
            assert(vv.take(i + 1).last() == v@[i as int]@);
        }
        if v[i] != cs {
            let ghost o = strings_view(out@);
            out.push(v[i].clone());
            proof {
                assert(strings_view(out@) =~= o.push(v@[i as int]@));
            }
        }
        i = i + 1;
    }
    proof {
        assert(vv.take(i as int) =~= vv);
    }
    out
}

/// Appends a line to a text of lines joined by newlines.
fn add_line(text: String, line: String, lines: Ghost<Seq<Seq<char>>>) -> (r: String)
    requires
        text@ == joined(lines@),
        forall|i: int| 0 <= i < lines@.len() ==> (#[trigger] lines@[i]).len() > 0,
    ensures
        r@ == joined(lines@.push(line@)),
{
    proof {
        reveal_strlit("\n");
        assert(lines@.push(line@).drop_last() =~= lines@);
    }
    if text.unicode_len() == 0 {
        proof {
            if lines@.len() > 0 {
                assert(lines@[lines@.len() - 1].len() > 0);
                lemma_joined_len(lines@);
            }
        }
        line
    } else {
        let mut r = text;
        r.append("\n");
        r.append(line.as_str());
        r
    }
}

/// Joined non-empty lines are no shorter than the last line.
proof fn lemma_joined_len(lines: Seq<Seq<char>>)
    requires
        lines.len() > 0,
    ensures
        joined(lines).len() >= lines.last().len(),
    decreases lines.len(),
{
}

/// What a subscriber's request of client `id` does: the channels `ch0`
/// become `ch1`, the client's subscriptions `subs0` become `subs1`, its
/// subscription mode `mode0` becomes `mode1`, and `r` is the answer.  A
/// monitor listens with the queue `monitor_sender`, a subscriber to each
/// channel with the queue `sender`.
pub open spec fn suscriber_post<'a>(
    req: SuscriberRequest<'a>,
    ch0: ChannelsView,
    ch1: ChannelsView,
    subs0: Seq<Seq<char>>,
    subs1: Seq<Seq<char>>,
    mode0: bool,
    mode1: bool,
    id: u32,
    monitor_sender: Sender<String>,
    sender: Sender<String>,
    r: ReponseForm,
) -> bool {
    match req {
        SuscriberRequest::Monitor => {
            &&& ch1 == subscribed(ch0, monitor_name(), (SPECIAL_CHANNELS_ID, monitor_sender))
            &&& subs1 == subs0
            &&& mode1 == mode0
            &&& r == ReponseForm::Valid("Ok"@)
        },
        SuscriberRequest::Subscribe(names) => {
            let st = subscribe_all(subs0, ch0, strs_view(names@), (id, sender));
            &&& subs1 == st.0
            &&& ch1 == st.1
            &&& mode1
            &&& r == ReponseForm::Valid(joined(st.2))
        },
        SuscriberRequest::Unsubscribe(names) => {
            let list = if names@.len() == 0 {
                subs0
            } else {
                strs_view(names@)
            };
            let st = unsubscribe_all(
                subs0,
                ch0,
                list,
                id,
            );
            &&& subs1 == st.0
            &&& ch1 == st.1
            &&& mode1 == mode0
            &&& r == ReponseForm::Valid(joined(st.2))
        },
    }
}

/// The line a subscriber is shown for a message of one of its channels:
/// `message <msg> `.
pub open spec fn subscription_text(msg: Seq<char>) -> Seq<char> {
    spaced(seq!["message"@, msg])
}

/// The line a subscriber is shown for a message (see `subscription_text`).
pub fn subscription_line(msg: &str) -> (r: String)
    ensures
        r@ == subscription_text(msg@),
{
    let parts: Vec<&str> = vec!["message", msg];
    proof {
        assert(strs_view(parts@) =~= seq!["message"@, msg@]);
    }
    spaced_str(&parts)
}

impl<'a> SuscriberRequest<'a> {
    /// Runs the request for the client `id`: `monitor` makes the client
    /// listen to the channel `Monitor` with the queue `monitor_sender`;
    /// `subscribe` adds each channel (see `subscribe_all`), to which the
    /// client listens with the queue `sender`, and turns on subscription
    /// mode; `unsubscribe` removes the given channels, or all
    /// when none is given (see `unsubscribe_all`).  The answer holds a line
    /// per channel.
    pub fn execute(
        self,
        channels: &mut Channels,
        subscriptions: &mut Vec<String>,
        id: u32,
        subscription_mode: &mut bool,
        monitor_sender: Sender<String>,
        sender: Sender<String>,
    ) -> (r: Reponse)
        requires
            old(channels).wf(),
        ensures
            final(channels).wf(),
            final(channels).sent() == old(channels).sent(),
            suscriber_post(
                self,
                old(channels)@,
                final(channels)@,
                strings_view(old(subscriptions)@),
                strings_view(final(subscriptions)@),
                *old(subscription_mode),
                *final(subscription_mode),
                id,
                monitor_sender,
                sender,
                r@,
            ),
    {
        proof {
            reveal_strlit("Ok");
            reveal_strlit("Monitor");
            reveal_strlit("subscribe");
            reveal_strlit("unsubscribe");
            assert(MONITOR@ =~= monitor_name());
        }
        match self {
            SuscriberRequest::Monitor => {
                channels.subscribe(MONITOR, monitor_sender, SPECIAL_CHANNELS_ID);
                Reponse::Valid(String::from_str("Ok"))
            },
            SuscriberRequest::Subscribe(names) => {
                let ghost nv = strs_view(names@);
                let ghost s0 = strings_view(subscriptions@);
                let ghost c0 = channels@;
                let mut result = String::new();
                let mut i: usize = 0;
                proof {
                    assert(nv.take(0) =~= Seq::<Seq<char>>::empty());
                }
                while i < names.len()
                    invariant
                        channels.wf(),
                        channels.sent() == old(channels).sent(),
                        i <= names@.len(),
                        nv == strs_view(names@),
                        ({
                            let st = subscribe_all(s0, c0, nv.take(i as int), (id, sender));
                            &&& strings_view(subscriptions@) == st.0
                            &&& channels@ == st.1
                            &&& result@ == joined(st.2)
                            &&& forall|q: int| 0 <= q < st.2.len() ==> (#[trigger] st.2[q]).len() > 0
                        }),
                    decreases names.len() - i,
                {
                    let c = names[i];
                    let ghost pre = subscribe_all(s0, c0, nv.take(i as int), (id, sender));
                    proof {
                        assert(nv.take(i + 1).drop_last() =~= nv.take(i as int));
                        assert(nv.take(i + 1).last() == c@);
                    }
                    if !find_name(subscriptions, c) {
                        let ghost sv = strings_view(subscriptions@);
                        subscriptions.push(String::from_str(c));
                        proof {
                            assert(strings_view(subscriptions@) =~= sv.push(c@));
                        }
                        channels.subscribe(c, copy_sender(&sender), id);
                    }
                    let line = count_text("subscribe", c, subscriptions.len());
                    proof {
                        assert(strings_view(subscriptions@).len() == subscriptions@.len());
                        let x = seq!["subscribe"@, c@, int_str(subscriptions@.len() as int)];
                        assert(line@ == spaced(x.drop_last()) + x.last() + seq![' ']);
                    }
                    result = add_line(result, line, Ghost(pre.2));
                    i = i + 1;
                }
                proof {
                    assert(nv.take(i as int) =~= nv);
                }
                *subscription_mode = true;
                Reponse::Valid(result)
            },
            SuscriberRequest::Unsubscribe(names) => {
                let list: Vec<String> = if names.len() == 0 {
                    crate::databasehelper::copy_strings(subscriptions)
                } else {
                    let mut l: Vec<String> = Vec::new();
                    let mut k: usize = 0;
                    while k < names.len()
                        invariant
                            k <= names@.len(),
                            strings_view(l@) == strs_view(names@).take(k as int),
                        decreases names.len() - k,
                    {
                        let ghost o = strings_view(l@);
                        l.push(String::from_str(names[k]));
                        proof {
                            assert(strings_view(l@) =~= o.push(names@[k as int]@));
                            assert(strs_view(names@).take(k + 1) =~= strs_view(names@).take(
                                k as int,
                            ).push(names@[k as int]@));
                        }
                        k = k + 1;
                    }
                    proof {
                        assert(strs_view(names@).take(k as int) =~= strs_view(names@));
                    }
                    l
                };
                let ghost nv = strings_view(list@);
                let ghost s0 = strings_view(subscriptions@);
                let ghost c0 = channels@;
                let mut result = String::new();
                let mut i: usize = 0;
                proof {
                    assert(nv.take(0) =~= Seq::<Seq<char>>::empty());
                }
                while i < list.len()
                    invariant
                        channels.wf(),
                        channels.sent() == old(channels).sent(),
                        i <= list@.len(),
                        nv == strings_view(list@),
                        ({
                            let st = unsubscribe_all(s0, c0, nv.take(i as int), id);
                            &&& strings_view(subscriptions@) == st.0
                            &&& channels@ == st.1
                            &&& result@ == joined(st.2)
                            &&& forall|q: int| 0 <= q < st.2.len() ==> (#[trigger] st.2[q]).len() > 0
                        }),
                    decreases list.len() - i,
                {
                    let c = list[i].as_str();
                    let ghost pre = unsubscribe_all(s0, c0, nv.take(i as int), id);
                    proof {
                        assert(nv.take(i + 1).drop_last() =~= nv.take(i as int));
                        assert(nv.take(i + 1).last() == c@);
                    }
                    if find_name(subscriptions, c) {
                        let kept = drop_name(subscriptions, c);
                        *subscriptions = kept;
                        channels.unsubscribe(c, id);
                    }
                    let line = count_text("unsubscribe", c, subscriptions.len());
                    proof {
                        assert(strings_view(subscriptions@).len() == subscriptions@.len());
                        let x = seq!["unsubscribe"@, c@, int_str(subscriptions@.len() as int)];
                        assert(line@ == spaced(x.drop_last()) + x.last() + seq![' ']);
                    }
                    result = add_line(result, line, Ghost(pre.2));
                    i = i + 1;
                }
                proof {
                    assert(nv.take(i as int) =~= nv);
                }
                Reponse::Valid(result)
            },
        }
    }
}


/// The channels and their numbers of listeners, each name followed by its
/// number.
pub open spec fn numsub_items(chans: ChannelsView, names: Seq<Seq<char>>) -> Seq<
    Seq<char>,
>
    decreases names.len(),
{
    if names.len() == 0 {
        Seq::empty()
    } else {
        numsub_items(chans, names.drop_last()) + seq![
            names.last(),
            int_str(listeners_of(chans, names.last()) as int),
        ]
    }
}

/// The answer to a question about the channels: for `channels`, the channels
/// that match the pattern (`*` when none is given), or `(empty set or list)`;
/// for `numsub`, each channel with its number of listeners.
pub open spec fn pubsub_reply<'a>(
    cmd: PubSubSubcommand<'a>,
    chans: ChannelsView,
) -> ReponseForm {
    match cmd {
        PubSubSubcommand::Channels(p) => {
            let pattern = match p {
                Some(x) => x@,
                None => "*"@,
            };
            let found = channels_matching(chans, pattern);
            ReponseForm::Valid(
                if found.len() == 0 {
                    "(empty set or list)"@
                } else {
                    spaced(found)
                },
            )
        },
        PubSubSubcommand::NumSub(names) => ReponseForm::Valid(
            spaced(numsub_items(chans, strs_view(names@))),
        ),
    }
}

impl<'a> PubSubSubcommand<'a> {
    /// `channels`: the channels that match the pattern (`*` when none is
    /// given), or `(empty set or list)`; `numsub`: each channel with its
    /// number of listeners.
    pub fn execute(self, channels: &mut Channels) -> (r: Reponse)
        requires
            old(channels).wf(),
        ensures
            final(channels).wf(),
            final(channels)@ == old(channels)@,
            final(channels).sent() == old(channels).sent(),
            r@ == pubsub_reply(self, old(channels)@),
    {
        match self {
            PubSubSubcommand::Channels(pattern) => {
                let p = match pattern {
                    Some(x) => x,
                    None => "*",
                };
                let c = channels.get_channels(p);
                if c.len() == 0 {
                    Reponse::Valid(String::from_str("(empty set or list)"))
                } else {
                    proof {
                        assert(strings_view(c@) =~= channels_matching(channels@, p@));
                    }
                    Reponse::Valid(spaced_text(&c))
                }
            },
            PubSubSubcommand::NumSub(channels_to_count) => {
                let ghost nv = strs_view(channels_to_count@);
                let mut r: Vec<String> = Vec::new();
                let mut i: usize = 0;
                proof {
                    assert(nv.take(0) =~= Seq::<Seq<char>>::empty());
                }
                while i < channels_to_count.len()
                    invariant
                        channels.wf(),
                        channels.sent() == old(channels).sent(),
                        i <= channels_to_count@.len(),
                        nv == strs_view(channels_to_count@),
                        strings_view(r@) == numsub_items(channels@, nv.take(i as int)),
                    decreases channels_to_count.len() - i,
                {
                    let channel = channels_to_count[i];
                    let ghost o = strings_view(r@);
                    r.push(String::from_str(channel));
                    let count = channels.subcriptors_number(channel);
                    r.push(int_to_string(count as i128));
                    proof {
                        assert(nv.take(i + 1).drop_last() =~= nv.take(i as int));
                        assert(nv.take(i + 1).last() == channel@);
                        assert(strings_view(r@) =~= o + seq![channel@, int_str(count as int)]);
                    }
                    i = i + 1;
                }
                proof {
                    assert(nv.take(i as int) =~= nv);
                }
                Reponse::Valid(spaced_text(&r))
            },
        }
    }
}

/// The answer to a publisher's request on the channels `chans`.
pub open spec fn publisher_reply<'a>(req: PublisherRequest<'a>, chans: ChannelsView) -> ReponseForm {
    match req {
        PublisherRequest::Publish(c, _) => ReponseForm::Valid(
            int_str((listeners_of(chans, c@) as i32) as int),
        ),
        PublisherRequest::PubSub(cmd) => pubsub_reply(cmd, chans),
    }
}

/// The messages a publisher's request hands to listeners' queues:
/// `publish` hands `<channel> <message> ` to each listener of the channel.
pub open spec fn publisher_sent<'a>(req: PublisherRequest<'a>, chans: ChannelsView) -> Seq<Handed> {
    match req {
        PublisherRequest::Publish(c, m) => deliveries(chans, c@, spaced(seq![c@, m@])),
        PublisherRequest::PubSub(_) => Seq::empty(),
    }
}

impl<'a> PublisherRequest<'a> {
    /// `publish`: sends `<channel> <message> ` to the listeners of the
    /// channel and answers their number; `pubsub`: see
    /// `PubSubSubcommand::execute`.
    pub fn execute(self, channels: &mut Channels) -> (r: Reponse)
        requires
            old(channels).wf(),
        ensures
            final(channels).wf(),
            final(channels)@ == old(channels)@,
            final(channels).sent() == old(channels).sent() + publisher_sent(self, old(channels)@),
            r@ == publisher_reply(self, old(channels)@),
    {
        match self {
            PublisherRequest::Publish(chanel, msg) => {
                let parts: Vec<&str> = vec![chanel, msg];
                let message = spaced_str(&parts);
                proof {
                    assert(strs_view(parts@) =~= seq![chanel@, msg@]);
                }
                let subscribers = channels.send(chanel, message.as_str());
                Reponse::Valid(int_to_string(subscribers as i128))
            },
            PublisherRequest::PubSub(pub_sub_command) => pub_sub_command.execute(channels),
        }
    }
}


/// The message of a refusal.
pub open spec fn refusal_text(e: RequestError) -> Seq<char> {
    match e {
        RequestError::ParseError => "Couldn't Parse number input"@,
        RequestError::InvalidNumberOfArguments => "Invalid Number of Arguments"@,
        RequestError::UnknownRequest => "Non existent Request"@,
        RequestError::InvalidCommandSubscribeMode => "Subscription mode doesn't support other commands"@,
    }
}

/// The text a request is shown as.
pub open spec fn request_line(f: ReqForm) -> Seq<char> {
    match f {
        ReqForm::DataBase(q) => query_line(q),
        ReqForm::ConfigGet(p) => "Config get - Pattern: "@ + p,
        ReqForm::ConfigSet(o, v) => "Config set - Option: "@ + o + " - NewValue: "@ + v,
        ReqForm::Info => "Info"@,
        ReqForm::Monitor => "Monitor"@,
        ReqForm::Subscribe(v) => "Subscribe channels: "@ + spaced(v),
        ReqForm::Unsubscribe(v) => "Unsubscribe channels: "@ + spaced(v),
        ReqForm::Publish(c, m) => "Publish - channel: "@ + c + " - message: "@ + m,
        ReqForm::PubSubChannels(p) => "PubSub "@ + "channels pattern: "@ + match p {
            Some(x) => x,
            None => "*"@,
        },
        ReqForm::PubSubNumSub(v) => "PubSub "@ + "numsub channels: "@ + spaced(v),
        ReqForm::CloseClient => "Close"@,
        ReqForm::Invalid(t, e) => refusal_text(e) + " On: "@ + t,
    }
}

/// The text an answer is shown as.
pub open spec fn reponse_line(r: ReponseForm) -> Seq<char> {
    match r {
        ReponseForm::Valid(m) => m,
        ReponseForm::Error(e) => "Error: "@ + e,
    }
}

impl RequestError {
    /// The message of the refusal (see `refusal_text`).
    pub fn to_string(&self) -> (r: String)
        ensures
            r@ == refusal_text(*self),
    {
        match self {
            RequestError::ParseError => String::from_str("Couldn't Parse number input"),
            RequestError::InvalidNumberOfArguments => String::from_str("Invalid Number of Arguments"),
            RequestError::UnknownRequest => String::from_str("Non existent Request"),
            RequestError::InvalidCommandSubscribeMode => String::from_str(
                "Subscription mode doesn't support other commands",
            ),
        }
    }
}

impl<'a> Request<'a> {
    /// The text the request is shown as (see `request_line`).
    pub fn to_string(&self) -> (r: String)
        ensures
            r@ == request_line(self@),
    {
        proof {
            reveal_strlit("Config get - Pattern: ");
            reveal_strlit("Config set - Option: ");
            reveal_strlit(" - NewValue: ");
            reveal_strlit("Info");
            reveal_strlit("Monitor");
            reveal_strlit("Subscribe channels: ");
            reveal_strlit("Unsubscribe channels: ");
            reveal_strlit("Publish - channel: ");
            reveal_strlit(" - message: ");
            reveal_strlit("PubSub ");
            reveal_strlit("channels pattern: ");
            reveal_strlit("numsub channels: ");
            reveal_strlit("*");
            reveal_strlit("Close");
            reveal_strlit(" On: ");
        }
        match self {
            Request::DataBase(q) => q.to_string(),
            Request::Server(ServerRequest::ConfigGet(p)) => {
                let mut r = String::from_str("Config get - Pattern: ");
                r.append(p);
                r
            },
            Request::Server(ServerRequest::ConfigSet(o, v)) => {
                let mut r = String::from_str("Config set - Option: ");
                r.append(o);
                r.append(" - NewValue: ");
                r.append(v);
                r
            },
            Request::Server(ServerRequest::Info()) => String::from_str("Info"),
            Request::Suscriber(SuscriberRequest::Monitor) => String::from_str("Monitor"),
            Request::Suscriber(SuscriberRequest::Subscribe(v)) => {
                let mut r = String::from_str("Subscribe channels: ");
                let t = spaced_str(v);
                r.append(t.as_str());
                r
            },
            Request::Suscriber(SuscriberRequest::Unsubscribe(v)) => {
                let mut r = String::from_str("Unsubscribe channels: ");
                let t = spaced_str(v);
                r.append(t.as_str());
                r
            },
            Request::Publisher(PublisherRequest::Publish(c, m)) => {
                let mut r = String::from_str("Publish - channel: ");
                r.append(c);
                r.append(" - message: ");
                r.append(m);
                r
            },
            Request::Publisher(PublisherRequest::PubSub(PubSubSubcommand::Channels(p))) => {
                let mut r = String::from_str("PubSub ");
                r.append("channels pattern: ");
                match p {
                    Some(x) => r.append(x),
                    None => r.append("*"),
                }
                r
            },
            Request::Publisher(PublisherRequest::PubSub(PubSubSubcommand::NumSub(v))) => {
                let mut r = String::from_str("PubSub ");
                r.append("numsub channels: ");
                let t = spaced_str(v);
                r.append(t.as_str());
                r
            },
            Request::CloseClient => String::from_str("Close"),
            Request::Invalid(t, e) => {
                let mut r = e.to_string();
                r.append(" On: ");
                r.append(t);
                r
            },
        }
    }
}

impl Reponse {
    /// The text the answer is shown as (see `reponse_line`).
    pub fn to_string(&self) -> (r: String)
        ensures
            r@ == reponse_line(self@),
    {
        proof {
            reveal_strlit("Error: ");
        }
        match self {
            Reponse::Valid(m) => m.clone(),
            Reponse::Error(e) => {
                let mut r = String::from_str("Error: ");
                r.append(e.as_str());
                r
            },
        }
    }
}


/// The text of `info`: the process id, the port, the seconds and whole days
/// the server has been up, and the number of clients, one per line.
pub open spec fn info_text(process_id: u32, port: u64, uptime_secs: u64, clients: u64) -> Seq<char> {
    "process_id:"@ + int_str(process_id as int) + "\r\n"@ + "tcp_port:"@ + int_str(port as int)
        + "\r\n"@ + "uptime_in_seconds:"@ + int_str(uptime_secs as int) + "\r\n"@
        + "uptime_in_days:"@ + int_str((uptime_secs / 86400) as int) + "\r\n"@ + "clients:"@
        + int_str(clients as int)
}

/// What a request about the configuration does: the options `c0` become
/// `c1`, and `r` is the answer, given the process id, the seconds the server
/// has been up and its number of clients.
pub open spec fn server_post<'a>(
    req: ServerRequest<'a>,
    c0: Seq<(Seq<char>, Seq<char>)>,
    c1: Seq<(Seq<char>, Seq<char>)>,
    process_id: u32,
    uptime_secs: u64,
    total_clients: u64,
    r: ReponseForm,
) -> bool {
    match req {
        ServerRequest::ConfigGet(p) => {
            let lines = matching_lines(c0, p@);
            &&& c1 == c0
            &&& r == if lines.len() == 0 {
                ReponseForm::Error(server_error_text(ServerError::NonExistentConfigOption))
            } else {
                ReponseForm::Valid(
                    server_reply_text(
                        ServerReplyForm::List(
                            lines.map_values(|x: Seq<char>| ServerReplyForm::Str(x)),
                        ),
                    ),
                )
            }
        },
        ServerRequest::ConfigSet(o, v) => if is_numeric_option(o@) && spec_parse_i64(
            v@,
        ) is None {
            r == ReponseForm::Error(server_error_text(ServerError::NotAnInteger))
                && c1 == c0
        } else if is_fixed_option(o@) {
            r == ReponseForm::Error("ERR Unsupported CONFIG parameter: "@ + o@)
                && c1 == c0
        } else if option_value(c0, o@) is Some {
            r == ReponseForm::Valid("Ok"@) && c1 == put(c0, o@, v@)
        } else {
            r == ReponseForm::Error(server_error_text(ServerError::NonExistentConfigOption))
                && c1 == c0
        },
        ServerRequest::Info() => c1 == c0 && r == ReponseForm::Valid(
            info_text(
                process_id,
                option_number(c0, "port"@, 8888),
                uptime_secs,
                total_clients,
            ),
        ),
    }
}

impl<'a> ServerRequest<'a> {
    /// Answers a request about the configuration: `config get` lists the
    /// options that match, `config set` changes one (see
    /// `ServerConf::set_config`), `info` describes the server from the
    /// process id, the seconds it has been up and its number of clients.
    pub fn exec_request(
        self,
        conf: &mut ServerConf,
        process_id: u32,
        uptime_secs: u64,
        total_clients: u64,
    ) -> (r: Reponse)
        requires
            old(conf).wf(),
        ensures
            final(conf).wf(),
            server_post(
                self,
                old(conf)@,
                final(conf)@,
                process_id,
                uptime_secs,
                total_clients,
                r@,
            ),
    {
        proof {
            reveal_strlit("Ok");
        }
        let result = match self {
            ServerRequest::ConfigGet(option) => conf.get_config(option),
            ServerRequest::ConfigSet(option, value) => conf.set_config(option, value),
            ServerRequest::Info() => {
                let mut r = String::from_str("process_id:");
                r.append(int_to_string(process_id as i128).as_str());
                r.append("\r\n");
                r.append("tcp_port:");
                r.append(int_to_string(conf.port() as i128).as_str());
                r.append("\r\n");
                r.append("uptime_in_seconds:");
                r.append(int_to_string(uptime_secs as i128).as_str());
                r.append("\r\n");
                let uptime_in_days: u64 = uptime_secs / (60 * 60 * 24);
                r.append("uptime_in_days:");
                r.append(int_to_string(uptime_in_days as i128).as_str());
                r.append("\r\n");
                r.append("clients:");
                r.append(int_to_string(total_clients as i128).as_str());
                Ok(crate::server_conf::SuccessServerRequest::String(r))
            },
        };
        match result {
            Ok(succes) => Reponse::Valid(succes.to_string()),
            Err(err) => Reponse::Error(err.to_string()),
        }
    }
}

} // verus!
