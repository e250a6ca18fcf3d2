//! A client's session: its id, the channels it subscribed to and whether it
//! is in subscription mode, and what one request of it does to the
//! database, the channels and the configuration.
use vstd::prelude::*;
use crate::channels::{Channels, ChannelsView, Handed, unsubscribed, deliveries, logger_line, monitor_line, logger_name,
    monitor_name};
use crate::database::Database;
use crate::databasehelper::{strings_view, SuccessQuery, DataBaseError};
use crate::dispatch::{ReponseForm, query_post, query_runs, reply_of};
use crate::pubsub::{suscriber_post, server_post, publisher_reply, request_line, refusal_text};
use crate::request::{Request, Reponse, ReqForm};
use crate::databasehelper::spaced;
use crate::server_conf::ServerConf;
use std::sync::mpsc::Sender;

verus! {

/// The channels after `id` unsubscribes from each of `names` in turn.
pub open spec fn unsubscribed_each(
    chans: ChannelsView,
    names: Seq<Seq<char>>,
    id: u32,
) -> ChannelsView
    decreases names.len(),
{
    if names.len() == 0 {
        chans
    } else {
        unsubscribed(unsubscribed_each(chans, names.drop_last(), id), names.last(), id)
    }
}

/// The messages the logger and the monitors are handed for a request of
/// client `id` shown as `text`: the logger's first, then the monitors'.
pub open spec fn emitted(chans: ChannelsView, id: u32, text: Seq<char>) -> Seq<Handed> {
    deliveries(chans, logger_name(), logger_line(id, text)) + deliveries(
        chans,
        monitor_name(),
        monitor_line(id, text),
    )
}

/// The messages `handle` hands out for the request `f` of client `id`
/// before its answer: the request's text to the logger and the monitors
/// (none for `close` or a refused request), then, for `publish`, the
/// message to the channel's listeners.
pub open spec fn request_sent(f: ReqForm, chans: ChannelsView, id: u32) -> Seq<Handed> {
    match f {
        ReqForm::Invalid(_, _) => Seq::empty(),
        ReqForm::CloseClient => Seq::empty(),
        ReqForm::Publish(c, m) => emitted(chans, id, request_line(f)) + deliveries(
            chans,
            c,
            spaced(seq![c, m]),
        ),
        _ => emitted(chans, id, request_line(f)),
    }
}

/// The message that logs the answer `r` of client `id`: a valid answer goes
/// to the logger, an error to nobody.
pub open spec fn answer_sent(chans: ChannelsView, id: u32, r: ReponseForm) -> Seq<Handed> {
    match r {
        ReponseForm::Valid(m) => deliveries(chans, logger_name(), logger_line(id, m)),
        ReponseForm::Error(_) => Seq::empty(),
    }
}

/// How long a read of the client's next request may wait: the configured
/// `timeout` in seconds when it is positive and the client is not in
/// subscription mode; no limit otherwise.
pub fn read_timeout(time_out: u64, subscription_mode: bool) -> (r: Option<u64>)
    ensures
        r == (if time_out > 0 && !subscription_mode {
            Some(time_out)
        } else {
            None
        }),
{
    if time_out > 0 && !subscription_mode {
        Some(time_out)
    } else {
        None
    }
}

/// What a client's connection keeps between its requests.
pub struct Session {
    id: u32,
    subscriptions: Vec<String>,
    subscription_mode: bool,
}

impl Session {
    /// The client's id.
    pub closed spec fn id_view(&self) -> u32 {
        self.id
    }

    /// The channels the client subscribed to, in order.
    pub closed spec fn subs(&self) -> Seq<Seq<char>> {
        strings_view(self.subscriptions@)
    }

    /// Whether the client is in subscription mode.
    pub closed spec fn mode(&self) -> bool {
        self.subscription_mode
    }

    /// A session for the client `id`: no subscriptions, not in subscription
    /// mode.
    pub fn new(id: u32) -> (r: Session)
        ensures
            r.id_view() == id,
            r.subs() == Seq::<Seq<char>>::empty(),
            !r.mode(),
    {
        let r = Session { id, subscriptions: Vec::new(), subscription_mode: false };
        proof {
            assert(strings_view(r.subscriptions@) =~= Seq::<Seq<char>>::empty());
        }
        r
    }

    /// The client's id.
    pub fn id(&self) -> (r: u32)
        ensures
            r == self.id_view(),
    {
        self.id
    }

    /// Whether the client is in subscription mode.
    pub fn subscription_mode(&self) -> (r: bool)
        ensures
            r == self.mode(),
    {
        self.subscription_mode
    }

    /// Sends the text of a request to the logger and to the monitors.
    fn emit_request(&self, text: &str, channels: &mut Channels)
        requires
            old(channels).wf(),
        ensures
            final(channels).wf(),
            final(channels)@ == old(channels)@,
            final(channels).sent() == old(channels).sent() + deliveries(
                old(channels)@,
                logger_name(),
                logger_line(self.id_view(), text@),
            ) + deliveries(old(channels)@, monitor_name(), monitor_line(self.id_view(), text@)),
    {
        channels.send_logger(self.id, text);
        channels.send_monitor(self.id, text);
    }

    /// Runs one request of the client and gives the answer, and whether the
    /// client stays connected.  The request's text goes to the logger and
    /// the monitors first (a refused one excepted), and a valid answer to
    /// the logger after.  A query runs on the database, a request about the
    /// configuration on it (see `server_post`), a publisher's on the
    /// channels, a subscriber's on the channels and the session (see
    /// `suscriber_post`: a monitor's messages go to `monitor_sender`, those
    /// of subscribed channels to `sender`); `close` answers
    /// `OK` and ends the connection; a refused request is answered with its
    /// text as an error.
    pub fn handle(
        &mut self,
        request: Request,
        db: &mut Database,
        channels: &mut Channels,
        config: &mut ServerConf,
        process_id: u32,
        uptime_secs: u64,
        total_clients: u64,
        monitor_sender: Sender<String>,
        sender: Sender<String>,
    ) -> (r: (Reponse, bool))
        requires
            old(db).wf(),
            old(channels).wf(),
            old(config).wf(),
            request matches Request::DataBase(q) ==> query_runs(q, *old(db)),
        ensures
            final(db).wf(),
            final(channels).wf(),
            final(config).wf(),
            final(self).id_view() == old(self).id_view(),
            final(channels).sent() == old(channels).sent() + request_sent(
                request@,
                old(channels)@,
                old(self).id_view(),
            ) + answer_sent(final(channels)@, old(self).id_view(), r.0@),
            match request {
                Request::DataBase(q) => {
                    &&& exists|res: Result<SuccessQuery, DataBaseError>|
                        query_post(q, *old(db), *final(db), res) && r.0@ == reply_of(res)
                    &&& r.1
                    &&& final(channels)@ == old(channels)@
                    &&& final(config)@ == old(config)@
                    &&& final(self).subs() == old(self).subs()
                    &&& final(self).mode() == old(self).mode()
                },
                Request::Server(s) => {
                    &&& server_post(
                        s,
                        old(config)@,
                        final(config)@,
                        process_id,
                        uptime_secs,
                        total_clients,
                        r.0@,
                    )
                    &&& r.1
                    &&& *final(db) == *old(db)
                    &&& final(channels)@ == old(channels)@
                    &&& final(self).subs() == old(self).subs()
                    &&& final(self).mode() == old(self).mode()
                },
                Request::Publisher(p) => {
                    &&& r.0@ == publisher_reply(p, old(channels)@)
                    &&& r.1
                    &&& *final(db) == *old(db)
                    &&& final(channels)@ == old(channels)@
                    &&& final(config)@ == old(config)@
                    &&& final(self).subs() == old(self).subs()
                    &&& final(self).mode() == old(self).mode()
                },
                Request::Suscriber(s) => {
                    &&& suscriber_post(
                        s,
                        old(channels)@,
                        final(channels)@,
                        old(self).subs(),
                        final(self).subs(),
                        old(self).mode(),
                        final(self).mode(),
                        old(self).id_view(),
                        monitor_sender,
                        sender,
                        r.0@,
                    )
                    &&& r.1
                    &&& *final(db) == *old(db)
                    &&& final(config)@ == old(config)@
                },
                Request::CloseClient => {
                    &&& r.0@ == ReponseForm::Valid("OK"@)
                    &&& !r.1
                    &&& *final(db) == *old(db)
                    &&& final(channels)@ == old(channels)@
                    &&& final(config)@ == old(config)@
                    &&& final(self).subs() == old(self).subs()
                    &&& final(self).mode() == old(self).mode()
                },
                Request::Invalid(t, e) => {
                    &&& r.0@ == ReponseForm::Error(refusal_text(e) + " On: "@ + t@)
                    &&& r.1
                    &&& *final(db) == *old(db)
                    &&& final(channels)@ == old(channels)@
                    &&& final(config)@ == old(config)@
                    &&& final(self).subs() == old(self).subs()
                    &&& final(self).mode() == old(self).mode()
                },
            },
    {
        let text = request.to_string();
        let (respond, alive) = match request {
            Request::DataBase(query) => {
                self.emit_request(text.as_str(), channels);
                (query.exec_query(db), true)
            },
            Request::Server(req) => {
                self.emit_request(text.as_str(), channels);
                (req.exec_request(config, process_id, uptime_secs, total_clients), true)
            },
            Request::Publisher(req) => {
                self.emit_request(text.as_str(), channels);
                (req.execute(channels), true)
            },
            Request::Suscriber(req) => {
                self.emit_request(text.as_str(), channels);
                let r = req.execute(
                    channels,
                    &mut self.subscriptions,
                    self.id,
                    &mut self.subscription_mode,
                    monitor_sender,
                    sender,
                );
                (r, true)
            },
            Request::Invalid(_, _) => (Reponse::Error(text), true),
            Request::CloseClient => {
                proof {
                    reveal_strlit("OK");
                }
                (Reponse::Valid(String::from_str("OK")), false)
            },
        };
        match &respond {
            Reponse::Valid(msg) => {
                channels.send_logger(self.id, msg.as_str());
            },
            Reponse::Error(_) => {},
        }
        (respond, alive)
    }

    /// Ends the session: the client stops listening to each channel it
    /// subscribed to.
    pub fn close(&self, channels: &mut Channels)
        requires
            old(channels).wf(),
        ensures
            final(channels).wf(),
            final(channels)@ == unsubscribed_each(old(channels)@, self.subs(), self.id_view()),
            final(channels).sent() == old(channels).sent(),
    {
        let ghost subs = self.subs();
        let ghost c0 = channels@;
        let mut i: usize = 0;
        proof {
            assert(subs.take(0) =~= Seq::<Seq<char>>::empty());
        }
        while i < self.subscriptions.len()
            invariant
                channels.wf(),
                i <= self.subscriptions@.len(),
                subs == strings_view(self.subscriptions@),
                channels@ == unsubscribed_each(c0, subs.take(i as int), self.id),
                channels.sent() == old(channels).sent(),
            decreases self.subscriptions.len() - i,
        {
            proof {
                assert(subs.take(i + 1).drop_last() =~= subs.take(i as int));
                assert(subs.take(i + 1).last() == self.subscriptions@[i as int]@);
            }
            channels.unsubscribe(self.subscriptions[i].as_str(), self.id);
            i = i + 1;
        }
        proof {
            assert(subs.take(i as int) =~= subs);
        }
    }
}

} // verus!
