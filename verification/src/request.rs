//! The requests a client sends: how a line of text is read into a request,
//! what each request is shown as, and how a query is run on the database.
use vstd::prelude::*;
use crate::databasehelper::{SortFlags, SuccessQuery, DataBaseError, query_text, error_text,
    spaced, spaced_text, strings_view, QueryView, result_view};
use crate::text::{words, split_ws, int_str, int_to_string, spec_parse_i32, spec_parse_i64,
    spec_parse_usize, parse_i32, parse_i64, parse_usize};
use crate::strvec::strs_view;

verus! {

/// A request of a client.
pub enum Request<'a> {
    DataBase(Query<'a>),
    Server(ServerRequest<'a>),
    Suscriber(SuscriberRequest<'a>),
    Publisher(PublisherRequest<'a>),
    CloseClient,
    /// The text of the request and why it was refused.
    Invalid(&'a str, RequestError),
}

/// Why a request was refused.
#[derive(Debug, PartialEq, Eq, Structural)]
pub enum RequestError {
    ParseError,
    InvalidCommandSubscribeMode,
    UnknownRequest,
    InvalidNumberOfArguments,
}

/// A request about the server's configuration.
pub enum ServerRequest<'a> {
    ConfigGet(&'a str),
    ConfigSet(&'a str, &'a str),
    Info(),
}

/// A request that subscribes a client to channels.
pub enum SuscriberRequest<'a> {
    Monitor,
    Subscribe(Vec<&'a str>),
    Unsubscribe(Vec<&'a str>),
}

/// A question about the channels.
pub enum PubSubSubcommand<'a> {
    Channels(Option<&'a str>),
    NumSub(Vec<&'a str>),
}

/// A request that publishes to a channel or asks about the channels.
pub enum PublisherRequest<'a> {
    Publish(&'a str, &'a str),
    PubSub(PubSubSubcommand<'a>),
}

/// A query on the database.
pub enum Query<'a> {
    Flushdb(),
    Dbsize(),
    Copy(&'a str, &'a str),
    Del(&'a str),
    Exists(&'a str),
    Expire(&'a str, i64),
    ExpireAt(&'a str, i64),
    Keys(&'a str),
    Persist(&'a str),
    Rename(&'a str, &'a str),
    Sort(&'a str, SortFlags<'a>),
    Ttl(&'a str),
    Type(&'a str),
    Get(&'a str),
    Append(&'a str, &'a str),
    Incrby(&'a str, i32),
    Decrby(&'a str, i32),
    Getdel(&'a str),
    Getset(&'a str, &'a str),
    SetValue(&'a str, &'a str),
    Strlen(&'a str),
    Mset(Vec<&'a str>),
    Mget(Vec<&'a str>),
    Lindex(&'a str, i32),
    Llen(&'a str),
    Lpop(&'a str),
    Lpush(&'a str, Vec<&'a str>),
    Lpushx(&'a str, Vec<&'a str>),
    Lrange(&'a str, i32, i32),
    Lrem(&'a str, i32, &'a str),
    Lset(&'a str, usize, &'a str),
    Rpop(&'a str),
    Rpush(&'a str, Vec<&'a str>),
    Rpushx(&'a str, Vec<&'a str>),
    Sadd(&'a str, Vec<&'a str>),
    Sismember(&'a str, &'a str),
    Scard(&'a str),
    Smembers(&'a str),
    Srem(&'a str, Vec<&'a str>),
}

/// The answer to a client.
#[derive(Debug, PartialEq)]
pub enum Reponse {
    Valid(String),
    Error(String),
}

/// The mathematical value of the options of `sort`.
pub enum FlagForm {
    Plain,
    Alpha,
    Desc,
    Limit(i32, i32),
    By(Seq<char>),
    Composite(Seq<FlagForm>),
}

/// The mathematical value of the options of `sort`.
pub open spec fn flag_form<'a>(f: SortFlags<'a>) -> FlagForm
    decreases f,
{
    match f {
        SortFlags::WithoutFlags => FlagForm::Plain,
        SortFlags::Alpha => FlagForm::Alpha,
        SortFlags::Desc => FlagForm::Desc,
        SortFlags::Limit(a, b) => FlagForm::Limit(a, b),
        SortFlags::By(p) => FlagForm::By(p@),
        SortFlags::CompositeFlags(fs) => FlagForm::Composite(
            Seq::new(
                fs@.len(),
                |i: int|
                    if 0 <= i < fs@.len() {
                        flag_form(fs@[i])
                    } else {
                        FlagForm::Plain
                    },
            ),
        ),
    }
}

/// The mathematical value of a query.
pub enum QForm {
    Flushdb,
    Dbsize,
    Copy(Seq<char>, Seq<char>),
    Del(Seq<char>),
    Exists(Seq<char>),
    Expire(Seq<char>, i64),
    ExpireAt(Seq<char>, i64),
    Keys(Seq<char>),
    Persist(Seq<char>),
    Rename(Seq<char>, Seq<char>),
    Sort(Seq<char>, FlagForm),
    Ttl(Seq<char>),
    Type(Seq<char>),
    Get(Seq<char>),
    Append(Seq<char>, Seq<char>),
    Incrby(Seq<char>, i32),
    Decrby(Seq<char>, i32),
    Getdel(Seq<char>),
    Getset(Seq<char>, Seq<char>),
    SetValue(Seq<char>, Seq<char>),
    Strlen(Seq<char>),
    Mset(Seq<Seq<char>>),
    Mget(Seq<Seq<char>>),
    Lindex(Seq<char>, i32),
    Llen(Seq<char>),
    Lpop(Seq<char>),
    Lpush(Seq<char>, Seq<Seq<char>>),
    Lpushx(Seq<char>, Seq<Seq<char>>),
    Lrange(Seq<char>, i32, i32),
    Lrem(Seq<char>, i32, Seq<char>),
    Lset(Seq<char>, usize, Seq<char>),
    Rpop(Seq<char>),
    Rpush(Seq<char>, Seq<Seq<char>>),
    Rpushx(Seq<char>, Seq<Seq<char>>),
    Sadd(Seq<char>, Seq<Seq<char>>),
    Sismember(Seq<char>, Seq<char>),
    Scard(Seq<char>),
    Smembers(Seq<char>),
    Srem(Seq<char>, Seq<Seq<char>>),
}

/// The mathematical value of a request.
pub enum ReqForm {
    DataBase(QForm),
    ConfigGet(Seq<char>),
    ConfigSet(Seq<char>, Seq<char>),
    Info,
    Monitor,
    Subscribe(Seq<Seq<char>>),
    Unsubscribe(Seq<Seq<char>>),
    Publish(Seq<char>, Seq<char>),
    PubSubChannels(Option<Seq<char>>),
    PubSubNumSub(Seq<Seq<char>>),
    CloseClient,
    Invalid(Seq<char>, RequestError),
}

impl<'a> View for Query<'a> {
    type V = QForm;

    open spec fn view(&self) -> QForm {
        match *self {
            Query::Flushdb() => QForm::Flushdb,
            Query::Dbsize() => QForm::Dbsize,
            Query::Copy(a0, a1) => QForm::Copy(a0@, a1@),
            Query::Del(a0) => QForm::Del(a0@),
            Query::Exists(a0) => QForm::Exists(a0@),
            Query::Expire(a0, a1) => QForm::Expire(a0@, a1),
            Query::ExpireAt(a0, a1) => QForm::ExpireAt(a0@, a1),
            Query::Keys(a0) => QForm::Keys(a0@),
            Query::Persist(a0) => QForm::Persist(a0@),
            Query::Rename(a0, a1) => QForm::Rename(a0@, a1@),
            Query::Sort(a0, a1) => QForm::Sort(a0@, flag_form(a1)),
            Query::Ttl(a0) => QForm::Ttl(a0@),
            Query::Type(a0) => QForm::Type(a0@),
            Query::Get(a0) => QForm::Get(a0@),
            Query::Append(a0, a1) => QForm::Append(a0@, a1@),
            Query::Incrby(a0, a1) => QForm::Incrby(a0@, a1),
            Query::Decrby(a0, a1) => QForm::Decrby(a0@, a1),
            Query::Getdel(a0) => QForm::Getdel(a0@),
            Query::Getset(a0, a1) => QForm::Getset(a0@, a1@),
            Query::SetValue(a0, a1) => QForm::SetValue(a0@, a1@),
            Query::Strlen(a0) => QForm::Strlen(a0@),
            Query::Mset(a0) => QForm::Mset(strs_view(a0@)),
            Query::Mget(a0) => QForm::Mget(strs_view(a0@)),
            Query::Lindex(a0, a1) => QForm::Lindex(a0@, a1),
            Query::Llen(a0) => QForm::Llen(a0@),
            Query::Lpop(a0) => QForm::Lpop(a0@),
            Query::Lpush(a0, a1) => QForm::Lpush(a0@, strs_view(a1@)),
            Query::Lpushx(a0, a1) => QForm::Lpushx(a0@, strs_view(a1@)),
            Query::Lrange(a0, a1, a2) => QForm::Lrange(a0@, a1, a2),
            Query::Lrem(a0, a1, a2) => QForm::Lrem(a0@, a1, a2@),
            Query::Lset(a0, a1, a2) => QForm::Lset(a0@, a1, a2@),
            Query::Rpop(a0) => QForm::Rpop(a0@),
            Query::Rpush(a0, a1) => QForm::Rpush(a0@, strs_view(a1@)),
            Query::Rpushx(a0, a1) => QForm::Rpushx(a0@, strs_view(a1@)),
            Query::Sadd(a0, a1) => QForm::Sadd(a0@, strs_view(a1@)),
            Query::Sismember(a0, a1) => QForm::Sismember(a0@, a1@),
            Query::Scard(a0) => QForm::Scard(a0@),
            Query::Smembers(a0) => QForm::Smembers(a0@),
            Query::Srem(a0, a1) => QForm::Srem(a0@, strs_view(a1@)),
        }
    }
}

impl<'a> View for Request<'a> {
    type V = ReqForm;

    open spec fn view(&self) -> ReqForm {
        match *self {
            Request::DataBase(q) => ReqForm::DataBase(q@),
            Request::Server(ServerRequest::ConfigGet(p)) => ReqForm::ConfigGet(p@),
            Request::Server(ServerRequest::ConfigSet(o, v)) => ReqForm::ConfigSet(o@, v@),
            Request::Server(ServerRequest::Info()) => ReqForm::Info,
            Request::Suscriber(SuscriberRequest::Monitor) => ReqForm::Monitor,
            Request::Suscriber(SuscriberRequest::Subscribe(v)) => ReqForm::Subscribe(strs_view(v@)),
            Request::Suscriber(SuscriberRequest::Unsubscribe(v)) => ReqForm::Unsubscribe(
                strs_view(v@),
            ),
            Request::Publisher(PublisherRequest::Publish(c, m)) => ReqForm::Publish(c@, m@),
            Request::Publisher(PublisherRequest::PubSub(PubSubSubcommand::Channels(p))) => {
                ReqForm::PubSubChannels(
                    match p {
                        Some(x) => Some(x@),
                        None => None,
                    },
                )
            },
            Request::Publisher(PublisherRequest::PubSub(PubSubSubcommand::NumSub(v))) => {
                ReqForm::PubSubNumSub(strs_view(v@))
            },
            Request::CloseClient => ReqForm::CloseClient,
            Request::Invalid(t, e) => ReqForm::Invalid(t@, e),
        }
    }
}

/// How reading the options of `sort` stops early.
pub enum SortEnd {
    /// A single option, taken as it is.
    Flag(FlagForm),
    /// The numbers of `limit` are not `i32`s, or `by` has no pattern.
    ParseErr,
}

/// The position of the first `x` in `s`, or -1.
pub open spec fn first_pos(s: Seq<Seq<char>>, x: Seq<char>) -> int
    decreases s.len(),
{
    if s.len() == 0 {
        -1
    } else if s[0] == x {
        0
    } else {
        let p = first_pos(s.drop_first(), x);
        if p < 0 {
            -1
        } else {
            p + 1
        }
    }
}

/// An item that occurs has a first position, no later than any other.
pub proof fn lemma_first_pos(s: Seq<Seq<char>>, x: Seq<char>, i: int)
    requires
        0 <= i < s.len(),
        s[i] == x,
    ensures
        0 <= first_pos(s, x) <= i,
        s[first_pos(s, x)] == x,
    decreases s.len(),
{
    if s[0] != x {
        lemma_first_pos(s.drop_first(), x, i - 1);
    }
}

/// Reads the options of `sort` from position `i` of `tail` on, with `acc`
/// the options read so far.
pub open spec fn sort_scan(tail: Seq<Seq<char>>, i: int, acc: Seq<FlagForm>) -> Result<
    Seq<FlagForm>,
    SortEnd,
>
    decreases tail.len() - i,
{
    if i < 0 || i >= tail.len() {
        Ok(acc)
    } else {
        let e = tail[i];
        let n = tail.len();
        if e == "alpha"@ {
            if n > 1 {
                sort_scan(tail, i + 1, acc.push(FlagForm::Alpha))
            } else {
                Err(SortEnd::Flag(FlagForm::Alpha))
            }
        } else if e == "desc"@ {
            if n > 1 {
                sort_scan(tail, i + 1, acc.push(FlagForm::Desc))
            } else {
                Err(SortEnd::Flag(FlagForm::Desc))
            }
        } else if e == "limit"@ && first_pos(tail, "limit"@) + 2 < n {
            let p = first_pos(tail, "limit"@);
            match (spec_parse_i32(tail[p + 1]), spec_parse_i32(tail[p + 2])) {
                (Some(a), Some(b)) => if n == 3 {
                    Err(SortEnd::Flag(FlagForm::Limit(a, b)))
                } else {
                    sort_scan(tail, i + 1, acc.push(FlagForm::Limit(a, b)))
                },
                _ => Err(SortEnd::ParseErr),
            }
        } else if e == "by"@ {
            let p = first_pos(tail, "by"@);
            if p + 1 < n {
                if n > 1 {
                    sort_scan(tail, i + 1, acc.push(FlagForm::By(tail[p + 1])))
                } else {
                    Err(SortEnd::Flag(FlagForm::By(tail[p + 1])))
                }
            } else {
                Err(SortEnd::ParseErr)
            }
        } else {
            sort_scan(tail, i + 1, acc)
        }
    }
}

/// What the words of a `sort` request give.
pub open spec fn sort_form(ws: Seq<Seq<char>>, text: Seq<char>) -> ReqForm {
    let key = ws[1];
    let tail = ws.skip(2);
    if tail.len() == 0 {
        ReqForm::DataBase(QForm::Sort(key, FlagForm::Plain))
    } else {
        match sort_scan(tail, 0, Seq::empty()) {
            Ok(acc) => ReqForm::DataBase(QForm::Sort(key, FlagForm::Composite(acc))),
            Err(SortEnd::Flag(f)) => ReqForm::DataBase(QForm::Sort(key, f)),
            Err(SortEnd::ParseErr) => ReqForm::Invalid(text, RequestError::ParseError),
        }
    }
}

/// What the words of a request give.
pub open spec fn parse_form(ws: Seq<Seq<char>>, text: Seq<char>) -> ReqForm {
    let n = ws.len();
    let inv = |e: RequestError| ReqForm::Invalid(text, e);
    let db = |q: QForm| ReqForm::DataBase(q);
    if n == 3 && ws[0] == "expire"@ {
        if spec_parse_i64(ws[2]) is Some { db(QForm::Expire(ws[1], spec_parse_i64(ws[2])->Some_0)) } else { inv(RequestError::ParseError) }
    } else if n == 3 && ws[0] == "expireat"@ {
        if spec_parse_i64(ws[2]) is Some { db(QForm::ExpireAt(ws[1], spec_parse_i64(ws[2])->Some_0)) } else { inv(RequestError::ParseError) }
    } else if n == 2 && ws[0] == "ttl"@ {
        db(QForm::Ttl(ws[1]))
    } else if n == 2 && ws[0] == "type"@ {
        db(QForm::Type(ws[1]))
    } else if n == 2 && ws[0] == "persist"@ {
        db(QForm::Persist(ws[1]))
    } else if n == 3 && ws[0] == "append"@ {
        db(QForm::Append(ws[1], ws[2]))
    } else if n == 3 && ws[0] == "incrby"@ {
        if spec_parse_i32(ws[2]) is Some { db(QForm::Incrby(ws[1], spec_parse_i32(ws[2])->Some_0)) } else { inv(RequestError::ParseError) }
    } else if n == 3 && ws[0] == "decrby"@ {
        if spec_parse_i32(ws[2]) is Some { db(QForm::Decrby(ws[1], spec_parse_i32(ws[2])->Some_0)) } else { inv(RequestError::ParseError) }
    } else if n == 2 && ws[0] == "get"@ {
        db(QForm::Get(ws[1]))
    } else if n == 2 && ws[0] == "getdel"@ {
        db(QForm::Getdel(ws[1]))
    } else if n == 3 && ws[0] == "getset"@ {
        db(QForm::Getset(ws[1], ws[2]))
    } else if n == 3 && ws[0] == "set"@ {
        db(QForm::SetValue(ws[1], ws[2]))
    } else if n == 3 && ws[0] == "copy"@ {
        db(QForm::Copy(ws[1], ws[2]))
    } else if n == 2 && ws[0] == "del"@ {
        db(QForm::Del(ws[1]))
    } else if n == 2 && ws[0] == "exists"@ {
        db(QForm::Exists(ws[1]))
    } else if n == 2 && ws[0] == "keys"@ {
        db(QForm::Keys(ws[1]))
    } else if n == 3 && ws[0] == "rename"@ {
        db(QForm::Rename(ws[1], ws[2]))
    } else if n >= 2 && ws[0] == "sort"@ {
        sort_form(ws, text)
    } else if n == 2 && ws[0] == "strlen"@ {
        db(QForm::Strlen(ws[1]))
    } else if n >= 1 && ws[0] == "mset"@ {
        if n - 1 > 0 && (n - 1) % 2 == 0 { db(QForm::Mset(ws.skip(1))) } else { inv(RequestError::InvalidNumberOfArguments) }
    } else if n >= 1 && ws[0] == "mget"@ {
        db(QForm::Mget(ws.skip(1)))
    } else if n == 3 && ws[0] == "lindex"@ {
        if spec_parse_i32(ws[2]) is Some { db(QForm::Lindex(ws[1], spec_parse_i32(ws[2])->Some_0)) } else { inv(RequestError::ParseError) }
    } else if n == 2 && ws[0] == "llen"@ {
        db(QForm::Llen(ws[1]))
    } else if n == 2 && ws[0] == "lpop"@ {
        db(QForm::Lpop(ws[1]))
    } else if n >= 2 && ws[0] == "lpush"@ {
        if n - 2 == 0 { inv(RequestError::InvalidNumberOfArguments) } else { db(QForm::Lpush(ws[1], ws.skip(2))) }
    } else if n >= 2 && ws[0] == "lpushx"@ {
        if n - 2 == 0 { inv(RequestError::InvalidNumberOfArguments) } else { db(QForm::Lpushx(ws[1], ws.skip(2))) }
    } else if n == 4 && ws[0] == "lrange"@ {
        if spec_parse_i32(ws[2]) is Some && spec_parse_i32(ws[3]) is Some { db(QForm::Lrange(ws[1], spec_parse_i32(ws[2])->Some_0, spec_parse_i32(ws[3])->Some_0)) } else { inv(RequestError::ParseError) }
    } else if n == 4 && ws[0] == "lrem"@ {
        if spec_parse_i32(ws[2]) is Some { db(QForm::Lrem(ws[1], spec_parse_i32(ws[2])->Some_0, ws[3])) } else { inv(RequestError::ParseError) }
    } else if n == 4 && ws[0] == "lset"@ {
        if spec_parse_usize(ws[2]) is Some { db(QForm::Lset(ws[1], spec_parse_usize(ws[2])->Some_0, ws[3])) } else { inv(RequestError::ParseError) }
    } else if n == 2 && ws[0] == "rpop"@ {
        db(QForm::Rpop(ws[1]))
    } else if n >= 2 && ws[0] == "rpush"@ {
        if n - 2 == 0 { inv(RequestError::InvalidNumberOfArguments) } else { db(QForm::Rpush(ws[1], ws.skip(2))) }
    } else if n >= 2 && ws[0] == "rpushx"@ {
        if n - 2 == 0 { inv(RequestError::InvalidNumberOfArguments) } else { db(QForm::Rpushx(ws[1], ws.skip(2))) }
    } else if n >= 2 && ws[0] == "sadd"@ {
        if n - 2 == 0 { inv(RequestError::InvalidNumberOfArguments) } else { db(QForm::Sadd(ws[1], ws.skip(2))) }
    } else if n == 3 && ws[0] == "sismember"@ {
        db(QForm::Sismember(ws[1], ws[2]))
    } else if n == 2 && ws[0] == "scard"@ {
        db(QForm::Scard(ws[1]))
    } else if n == 1 && ws[0] == "flushdb"@ {
        db(QForm::Flushdb)
    } else if n == 1 && ws[0] == "dbsize"@ {
        db(QForm::Dbsize)
    } else if n == 3 && ws[0] == "config"@ && ws[1] == "get"@ {
        ReqForm::ConfigGet(ws[2])
    } else if n == 4 && ws[0] == "config"@ && ws[1] == "set"@ {
        ReqForm::ConfigSet(ws[2], ws[3])
    } else if n == 2 && ws[0] == "smembers"@ {
        db(QForm::Smembers(ws[1]))
    } else if n >= 2 && ws[0] == "srem"@ {
        db(QForm::Srem(ws[1], ws.skip(2)))
    } else if n == 1 && ws[0] == "monitor"@ {
        ReqForm::Monitor
    } else if n >= 1 && ws[0] == "subscribe"@ {
        ReqForm::Subscribe(ws.skip(1))
    } else if n == 3 && ws[0] == "publish"@ {
        ReqForm::Publish(ws[1], ws[2])
    } else if n >= 1 && ws[0] == "unsubscribe"@ {
        ReqForm::Unsubscribe(ws.skip(1))
    } else if n >= 2 && ws[0] == "pubsub"@ && ws[1] == "channels"@ {
        if n - 2 > 1 { inv(RequestError::InvalidNumberOfArguments) } else if n - 2 == 1 { ReqForm::PubSubChannels(Some(ws[2])) } else { ReqForm::PubSubChannels(None) }
    } else if n >= 2 && ws[0] == "pubsub"@ && ws[1] == "numsub"@ {
        ReqForm::PubSubNumSub(ws.skip(2))
    } else if n == 1 && ws[0] == "info"@ {
        ReqForm::Info
    } else if n == 1 && ws[0] == "close"@ {
        ReqForm::CloseClient
    } else {
        inv(RequestError::UnknownRequest)
    }
}

/// The request a line of text is read as: the words of the line (see
/// `parse_form`); in subscription mode, a request other than `subscribe`,
/// `unsubscribe`, `close` or a refused one is refused with
/// `InvalidCommandSubscribeMode`.
pub open spec fn request_form(text: Seq<char>, subscription_mode: bool) -> ReqForm {
    let f = parse_form(words(text), text);
    if !subscription_mode {
        f
    } else {
        match f {
            ReqForm::Subscribe(_) => f,
            ReqForm::Unsubscribe(_) => f,
            ReqForm::CloseClient => f,
            ReqForm::Invalid(_, _) => f,
            _ => ReqForm::Invalid(text, RequestError::InvalidCommandSubscribeMode),
        }
    }
}

/// The word at position `i` is `lit`.
fn word_is(w: &Vec<&str>, i: usize, lit: &str) -> (r: bool)
    ensures
        r == (i < w@.len() && w@[i as int]@ == lit@),
{
    if i < w.len() {
        let a = String::from_str(w[i]);
        let b = String::from_str(lit);
        a == b
    } else {
        false
    }
}

/// The words from position `start` on.
fn words_from<'a>(w: &Vec<&'a str>, start: usize) -> (r: Vec<&'a str>)
    requires
        start <= w@.len(),
    ensures
        strs_view(r@) == strs_view(w@).skip(start as int),
{
    let mut r: Vec<&'a str> = Vec::new();
    let mut i: usize = start;
    while i < w.len()
        invariant
            start <= i <= w@.len(),
            strs_view(r@) == strs_view(w@).subrange(start as int, i as int),
        decreases w.len() - i,
    {
        let ghost r0 = strs_view(r@);
        r.push(w[i]);
        proof {
            assert(strs_view(r@) =~= r0.push(w@[i as int]@));
            assert(strs_view(w@).subrange(start as int, i + 1) =~= strs_view(w@).subrange(
                start as int,
                i as int,
            ).push(w@[i as int]@));
        }
        i = i + 1;
    }
    proof {
        assert(strs_view(w@).subrange(start as int, i as int) =~= strs_view(w@).skip(start as int));
    }
    r
}

/// The position of the first word equal to `lit`, if any.
fn word_pos(w: &Vec<&str>, lit: &str) -> (r: Option<usize>)
    ensures
        match r {
            Some(p) => p < w@.len() && first_pos(strs_view(w@), lit@) == p,
            None => first_pos(strs_view(w@), lit@) == -1,
        },
{
    let ghost ws = strs_view(w@);
    let mut i: usize = 0;
    proof {
        assert(ws.skip(0) =~= ws);
    }
    while i < w.len()
        invariant
            i <= w@.len(),
            ws == strs_view(w@),
            first_pos(ws, lit@) == (if first_pos(ws.skip(i as int), lit@) < 0 {
                -1
            } else {
                first_pos(ws.skip(i as int), lit@) + i
            }),
        decreases w.len() - i,
    {
        proof {
            assert(ws.skip(i as int)[0] == w@[i as int]@);
            assert(ws.skip(i as int).drop_first() =~= ws.skip(i + 1));
        }
        if word_is(w, i, lit) {
            return Some(i);
        }
        i = i + 1;
    }
    proof {
        assert(ws.skip(i as int) =~= Seq::<Seq<char>>::empty());
    }
    None
}

/// Reads a `sort` request.
fn parse_sort<'a>(w: &Vec<&'a str>, text: &'a str) -> (r: Request<'a>)
    requires
        w@.len() >= 2,
    ensures
        r@ == sort_form(strs_view(w@), text@),
{
    proof {
        reveal_strlit("alpha");
        reveal_strlit("desc");
        reveal_strlit("limit");
        reveal_strlit("by");
    }
    let key = w[1];
    let tail = words_from(w, 2);
    let ghost tv = strs_view(tail@);
    if tail.len() == 0 {
        return Request::DataBase(Query::Sort(key, SortFlags::WithoutFlags));
    }
    let n = tail.len();
    let mut flags: Vec<SortFlags<'a>> = Vec::new();
    let ghost mut acc: Seq<FlagForm> = Seq::empty();
    let mut i: usize = 0;
    while i < n
        invariant
            n == tail@.len(),
            n >= 1,
            tv == strs_view(tail@),
            tv == strs_view(w@).skip(2),
            key@ == strs_view(w@)[1],
            i <= n,
            flags@.len() == acc.len(),
            forall|j: int| 0 <= j < flags@.len() ==> flag_form(#[trigger] flags@[j]) == acc[j],
            sort_scan(tv, i as int, acc) == sort_scan(tv, 0, Seq::empty()),
        decreases n - i,
    {
        let e = tail[i];
        proof {
            assert(tv[i as int] == e@);
        }
        if word_is(&tail, i, "alpha") {
            if n > 1 {
                flags.push(SortFlags::Alpha);
                proof {
                    acc = acc.push(FlagForm::Alpha);
                }
                i = i + 1;
                continue;
            } else {
                return Request::DataBase(Query::Sort(key, SortFlags::Alpha));
            }
        }
        if word_is(&tail, i, "desc") {
            if n > 1 {
                flags.push(SortFlags::Desc);
                proof {
                    acc = acc.push(FlagForm::Desc);
                }
                i = i + 1;
                continue;
            } else {
                return Request::DataBase(Query::Sort(key, SortFlags::Desc));
            }
        }
        if word_is(&tail, i, "limit") {
            proof {
                lemma_first_pos(tv, "limit"@, i as int);
            }
            let p = match word_pos(&tail, "limit") {
                Some(p) => p,
                None => 0,
            };
            if n - p > 2 {
                match (parse_i32(tail[p + 1]), parse_i32(tail[p + 2])) {
                    (Some(a), Some(b)) => {
                        if n == 3 {
                            return Request::DataBase(Query::Sort(key, SortFlags::Limit(a, b)));
                        } else {
                            flags.push(SortFlags::Limit(a, b));
                            proof {
                                acc = acc.push(FlagForm::Limit(a, b));
                            }
                            i = i + 1;
                            continue;
                        }
                    },
                    _ => {
                        return Request::Invalid(text, RequestError::ParseError);
                    },
                }
            }
        }
        if word_is(&tail, i, "by") {
            proof {
                lemma_first_pos(tv, "by"@, i as int);
            }
            let p = match word_pos(&tail, "by") {
                Some(p) => p,
                None => 0,
            };
            if n - p > 1 {
                let pattern = tail[p + 1];
                if n > 1 {
                    flags.push(SortFlags::By(pattern));
                    proof {
                        acc = acc.push(FlagForm::By(pattern@));
                    }
                    i = i + 1;
                    continue;
                } else {
                    return Request::DataBase(Query::Sort(key, SortFlags::By(pattern)));
                }
            }
            return Request::Invalid(text, RequestError::ParseError);
        }
        i = i + 1;
    }
    let r = Request::DataBase(Query::Sort(key, SortFlags::CompositeFlags(flags)));
    proof {
        let f = SortFlags::CompositeFlags(flags);
        assert(flag_form(f)->Composite_0 =~= acc);
    }
    r
}

/// Reads the words of a request (see `parse_form`).
fn parse_words<'a>(w: &Vec<&'a str>, text: &'a str) -> (r: Request<'a>)
    ensures
        r@ == parse_form(strs_view(w@), text@),
{
    let n = w.len();
    let ghost ws = strs_view(w@);
    proof {
        assert forall|i: int| 0 <= i < n implies ws[i] == w@[i]@ by {}
    }
    if n == 3 && word_is(w, 0, "expire") {
        match parse_i64(w[2]) { Some(x2) => { return Request::DataBase(Query::Expire(w[1], x2)); }, None => { return Request::Invalid(text, RequestError::ParseError); } }
    }
    if n == 3 && word_is(w, 0, "expireat") {
        match parse_i64(w[2]) { Some(x2) => { return Request::DataBase(Query::ExpireAt(w[1], x2)); }, None => { return Request::Invalid(text, RequestError::ParseError); } }
    }
    if n == 2 && word_is(w, 0, "ttl") {
        return Request::DataBase(Query::Ttl(w[1]));
    }
    if n == 2 && word_is(w, 0, "type") {
        return Request::DataBase(Query::Type(w[1]));
    }
    if n == 2 && word_is(w, 0, "persist") {
        return Request::DataBase(Query::Persist(w[1]));
    }
    if n == 3 && word_is(w, 0, "append") {
        return Request::DataBase(Query::Append(w[1], w[2]));
    }
    if n == 3 && word_is(w, 0, "incrby") {
        match parse_i32(w[2]) { Some(x2) => { return Request::DataBase(Query::Incrby(w[1], x2)); }, None => { return Request::Invalid(text, RequestError::ParseError); } }
    }
    if n == 3 && word_is(w, 0, "decrby") {
        match parse_i32(w[2]) { Some(x2) => { return Request::DataBase(Query::Decrby(w[1], x2)); }, None => { return Request::Invalid(text, RequestError::ParseError); } }
    }
    if n == 2 && word_is(w, 0, "get") {
        return Request::DataBase(Query::Get(w[1]));
    }
    if n == 2 && word_is(w, 0, "getdel") {
        return Request::DataBase(Query::Getdel(w[1]));
    }
    if n == 3 && word_is(w, 0, "getset") {
        return Request::DataBase(Query::Getset(w[1], w[2]));
    }
    if n == 3 && word_is(w, 0, "set") {
        return Request::DataBase(Query::SetValue(w[1], w[2]));
    }
    if n == 3 && word_is(w, 0, "copy") {
        return Request::DataBase(Query::Copy(w[1], w[2]));
    }
    if n == 2 && word_is(w, 0, "del") {
        return Request::DataBase(Query::Del(w[1]));
    }
    if n == 2 && word_is(w, 0, "exists") {
        return Request::DataBase(Query::Exists(w[1]));
    }
    if n == 2 && word_is(w, 0, "keys") {
        return Request::DataBase(Query::Keys(w[1]));
    }
    if n == 3 && word_is(w, 0, "rename") {
        return Request::DataBase(Query::Rename(w[1], w[2]));
    }
    if n >= 2 && word_is(w, 0, "sort") {
        return parse_sort(w, text);
    }
    if n == 2 && word_is(w, 0, "strlen") {
        return Request::DataBase(Query::Strlen(w[1]));
    }
    if n >= 1 && word_is(w, 0, "mset") {
        let tail = words_from(w, 1);
        proof {
            assert(strs_view(tail@).len() == tail@.len());
        }
        if tail.len() > 0 && tail.len() % 2 == 0 {
            return Request::DataBase(Query::Mset(tail));
        } else {
            return Request::Invalid(text, RequestError::InvalidNumberOfArguments);
        }
    }
    if n >= 1 && word_is(w, 0, "mget") {
        return Request::DataBase(Query::Mget(words_from(w, 1)));
    }
    if n == 3 && word_is(w, 0, "lindex") {
        match parse_i32(w[2]) { Some(x2) => { return Request::DataBase(Query::Lindex(w[1], x2)); }, None => { return Request::Invalid(text, RequestError::ParseError); } }
    }
    if n == 2 && word_is(w, 0, "llen") {
        return Request::DataBase(Query::Llen(w[1]));
    }
    if n == 2 && word_is(w, 0, "lpop") {
        return Request::DataBase(Query::Lpop(w[1]));
    }
    if n >= 2 && word_is(w, 0, "lpush") {
        let tail = words_from(w, 2);
        if tail.len() == 0 {
            return Request::Invalid(text, RequestError::InvalidNumberOfArguments);
        } else {
            return Request::DataBase(Query::Lpush(w[1], tail));
        }
    }
    if n >= 2 && word_is(w, 0, "lpushx") {
        let tail = words_from(w, 2);
        if tail.len() == 0 {
            return Request::Invalid(text, RequestError::InvalidNumberOfArguments);
        } else {
            return Request::DataBase(Query::Lpushx(w[1], tail));
        }
    }
    if n == 4 && word_is(w, 0, "lrange") {
        match parse_i32(w[2]) { Some(x2) => { match parse_i32(w[3]) { Some(x3) => { return Request::DataBase(Query::Lrange(w[1], x2, x3)); }, None => { return Request::Invalid(text, RequestError::ParseError); } } }, None => { return Request::Invalid(text, RequestError::ParseError); } }
    }
    if n == 4 && word_is(w, 0, "lrem") {
        match parse_i32(w[2]) { Some(x2) => { return Request::DataBase(Query::Lrem(w[1], x2, w[3])); }, None => { return Request::Invalid(text, RequestError::ParseError); } }
    }
    if n == 4 && word_is(w, 0, "lset") {
        match parse_usize(w[2]) { Some(x2) => { return Request::DataBase(Query::Lset(w[1], x2, w[3])); }, None => { return Request::Invalid(text, RequestError::ParseError); } }
    }
    if n == 2 && word_is(w, 0, "rpop") {
        return Request::DataBase(Query::Rpop(w[1]));
    }
    if n >= 2 && word_is(w, 0, "rpush") {
        let tail = words_from(w, 2);
        if tail.len() == 0 {
            return Request::Invalid(text, RequestError::InvalidNumberOfArguments);
        } else {
            return Request::DataBase(Query::Rpush(w[1], tail));
        }
    }
    if n >= 2 && word_is(w, 0, "rpushx") {
        let tail = words_from(w, 2);
        if tail.len() == 0 {
            return Request::Invalid(text, RequestError::InvalidNumberOfArguments);
        } else {
            return Request::DataBase(Query::Rpushx(w[1], tail));
        }
    }
    if n >= 2 && word_is(w, 0, "sadd") {
        let tail = words_from(w, 2);
        if tail.len() == 0 {
            return Request::Invalid(text, RequestError::InvalidNumberOfArguments);
        } else {
            return Request::DataBase(Query::Sadd(w[1], tail));
        }
    }
    if n == 3 && word_is(w, 0, "sismember") {
        return Request::DataBase(Query::Sismember(w[1], w[2]));
    }
    if n == 2 && word_is(w, 0, "scard") {
        return Request::DataBase(Query::Scard(w[1]));
    }
    if n == 1 && word_is(w, 0, "flushdb") {
        return Request::DataBase(Query::Flushdb());
    }
    if n == 1 && word_is(w, 0, "dbsize") {
        return Request::DataBase(Query::Dbsize());
    }
    if n == 3 && word_is(w, 0, "config") && word_is(w, 1, "get") {
        return Request::Server(ServerRequest::ConfigGet(w[2]));
    }
    if n == 4 && word_is(w, 0, "config") && word_is(w, 1, "set") {
        return Request::Server(ServerRequest::ConfigSet(w[2], w[3]));
    }
    if n == 2 && word_is(w, 0, "smembers") {
        return Request::DataBase(Query::Smembers(w[1]));
    }
    if n >= 2 && word_is(w, 0, "srem") {
        return Request::DataBase(Query::Srem(w[1], words_from(w, 2)));
    }
    if n == 1 && word_is(w, 0, "monitor") {
        return Request::Suscriber(SuscriberRequest::Monitor);
    }
    if n >= 1 && word_is(w, 0, "subscribe") {
        return Request::Suscriber(SuscriberRequest::Subscribe(words_from(w, 1)));
    }
    if n == 3 && word_is(w, 0, "publish") {
        return Request::Publisher(PublisherRequest::Publish(w[1], w[2]));
    }
    if n >= 1 && word_is(w, 0, "unsubscribe") {
        return Request::Suscriber(SuscriberRequest::Unsubscribe(words_from(w, 1)));
    }
    if n >= 2 && word_is(w, 0, "pubsub") && word_is(w, 1, "channels") {
        if n - 2 > 1 {
            return Request::Invalid(text, RequestError::InvalidNumberOfArguments);
        }
        let pattern = if n - 2 == 1 {
            Some(w[2])
        } else {
            None
        };
        return Request::Publisher(PublisherRequest::PubSub(PubSubSubcommand::Channels(pattern)));
    }
    if n >= 2 && word_is(w, 0, "pubsub") && word_is(w, 1, "numsub") {
        return Request::Publisher(
            PublisherRequest::PubSub(PubSubSubcommand::NumSub(words_from(w, 2))),
        );
    }
    if n == 1 && word_is(w, 0, "info") {
        return Request::Server(ServerRequest::Info());
    }
    if n == 1 && word_is(w, 0, "close") {
        return Request::CloseClient;
    }
    Request::Invalid(text, RequestError::UnknownRequest)
}

impl<'a> Request<'a> {
    /// Reads a line of text as a request (see `request_form`).
    pub fn new(request_str: &'a str, subscription_mode: bool) -> (r: Request<'a>)
        ensures
            r@ == request_form(request_str@, subscription_mode),
    {
        let w = split_ws(request_str);
        proof {
            assert(strs_view(w@) =~= words(request_str@));
        }
        let request = parse_words(&w, request_str);
        if subscription_mode {
            match request {
                Request::Suscriber(SuscriberRequest::Unsubscribe(_)) => request,
                Request::Suscriber(SuscriberRequest::Subscribe(_)) => request,
                Request::CloseClient => request,
                Request::Invalid(_, _) => request,
                _ => Request::Invalid(request_str, RequestError::InvalidCommandSubscribeMode),
            }
        } else {
            request
        }
    }
}

/// The text a query is shown as.
pub open spec fn query_line(q: QForm) -> Seq<char> {
    match q {
        QForm::Flushdb => "Flushdb"@,
        QForm::Dbsize => "Dbsize"@,
        QForm::Copy(a0, a1) => "Copy - Key: "@ + a0 + " - To_Key: "@ + a1,
        QForm::Del(a0) => "Del - Key: "@ + a0,
        QForm::Exists(a0) => "Exists - Key: "@ + a0,
        QForm::Expire(a0, a1) => "Expire - Key: "@ + a0 + " - Seconds: "@ + int_str(a1 as int),
        QForm::ExpireAt(a0, a1) => "ExpireAt - Key: "@ + a0 + " - Seconds: "@ + int_str(a1 as int),
        QForm::Keys(a0) => "Keys - Pattern: "@ + a0,
        QForm::Persist(a0) => "Persist - Key: "@ + a0,
        QForm::Rename(a0, a1) => "Rename - Old_Key "@ + a0 + " - New_Key "@ + a1,
        QForm::Sort(a0, a1) => "QueryKeys::Sort - Key:  - Limit   - Alpha  - ASC  - Pattern "@,
        QForm::Ttl(a0) => "TTL - Key: "@ + a0,
        QForm::Type(a0) => "Type - Key: "@ + a0,
        QForm::Get(a0) => "Get - Key: "@ + a0,
        QForm::Append(a0, a1) => "Append - Key: "@ + a0 + " - Value: "@ + a1 + " "@,
        QForm::Incrby(a0, a1) => "Incrby - Key: "@ + a0 + " - Increment: "@ + int_str(a1 as int),
        QForm::Decrby(a0, a1) => "Decrby - Key: "@ + a0 + " - Increment: "@ + int_str(a1 as int),
        QForm::Getdel(a0) => "Getdel - Key: "@ + a0,
        QForm::Getset(a0, a1) => "Getset - Key: "@ + a0 + " - Value: "@ + a1,
        QForm::SetValue(a0, a1) => "Set - Key: "@ + a0 + " - Value: "@ + a1,
        QForm::Strlen(a0) => "Strlen - Key: "@ + a0,
        QForm::Mset(a0) => "Mset pair: "@ + spaced(a0),
        QForm::Mget(a0) => "Mget Keys: "@ + spaced(a0),
        QForm::Lindex(a0, a1) => "Lindex - Key: "@ + a0 + " - Index: "@ + int_str(a1 as int),
        QForm::Llen(a0) => "Llen - Key "@ + a0,
        QForm::Lpop(a0) => "Lpop - Key "@ + a0,
        QForm::Lpush(a0, a1) => "Lpush - Key: "@ + a0 + " - Value: "@ + spaced(a1),
        QForm::Lpushx(a0, a1) => "Lpushx - Key: "@ + a0 + " - Value: "@ + spaced(a1),
        QForm::Lrange(a0, a1, a2) => "Lrange - Key: "@ + a0 + " - Begining: "@ + int_str(a1 as int) + " - End "@ + int_str(a2 as int),
        QForm::Lrem(a0, a1, a2) => "Lrem - Key: "@ + a0 + " - Rem: "@ + int_str(a1 as int) + " - Value: "@ + a2,
        QForm::Lset(a0, a1, a2) => "Lset - Key: "@ + a0 + " - Index: "@ + int_str(a1 as int) + " - Value: "@ + a2,
        QForm::Rpop(a0) => "Rpop - Key: "@ + a0,
        QForm::Rpush(a0, a1) => "Rpush - Key: "@ + a0 + " - Value: "@ + spaced(a1) + " "@,
        QForm::Rpushx(a0, a1) => "Rpushx - Key: "@ + a0 + " - Value: "@ + spaced(a1) + " "@,
        QForm::Sadd(a0, a1) => "Sadd - Key: "@ + a0 + " - Element: "@ + spaced(a1),
        QForm::Sismember(a0, a1) => "Sismember - Key: "@ + a0 + " - Element: "@ + a1,
        QForm::Scard(a0) => "Sismember - Key: "@ + a0,
        QForm::Smembers(a0) => "Smembers - Key: "@ + a0,
        QForm::Srem(a0, a1) => "Srem - Key: "@ + a0 + " - members: "@ + spaced(a1),
    }
}

impl<'a> Query<'a> {
    /// The text the query is shown as (see `query_line`).
    pub fn to_string(&self) -> (r: String)
        ensures
            r@ == query_line(self@),
    {
        proof {
            reveal_strlit(" ");
            reveal_strlit(" - Begining: ");
            reveal_strlit(" - Element: ");
            reveal_strlit(" - End ");
            reveal_strlit(" - Increment: ");
            reveal_strlit(" - Index: ");
            reveal_strlit(" - New_Key ");
            reveal_strlit(" - Rem: ");
            reveal_strlit(" - Seconds: ");
            reveal_strlit(" - To_Key: ");
            reveal_strlit(" - Value: ");
            reveal_strlit(" - members: ");
            reveal_strlit("Append - Key: ");
            reveal_strlit("Copy - Key: ");
            reveal_strlit("Dbsize");
            reveal_strlit("Decrby - Key: ");
            reveal_strlit("Del - Key: ");
            reveal_strlit("Exists - Key: ");
            reveal_strlit("Expire - Key: ");
            reveal_strlit("ExpireAt - Key: ");
            reveal_strlit("Flushdb");
            reveal_strlit("Get - Key: ");
            reveal_strlit("Getdel - Key: ");
            reveal_strlit("Getset - Key: ");
            reveal_strlit("Incrby - Key: ");
            reveal_strlit("Keys - Pattern: ");
            reveal_strlit("Lindex - Key: ");
            reveal_strlit("Llen - Key ");
            reveal_strlit("Lpop - Key ");
            reveal_strlit("Lpush - Key: ");
            reveal_strlit("Lpushx - Key: ");
            reveal_strlit("Lrange - Key: ");
            reveal_strlit("Lrem - Key: ");
            reveal_strlit("Lset - Key: ");
            reveal_strlit("Mget Keys: ");
            reveal_strlit("Mset pair: ");
            reveal_strlit("Persist - Key: ");
            reveal_strlit("QueryKeys::Sort - Key:  - Limit   - Alpha  - ASC  - Pattern ");
            reveal_strlit("Rename - Old_Key ");
            reveal_strlit("Rpop - Key: ");
            reveal_strlit("Rpush - Key: ");
            reveal_strlit("Rpushx - Key: ");
            reveal_strlit("Sadd - Key: ");
            reveal_strlit("Set - Key: ");
            reveal_strlit("Sismember - Key: ");
            reveal_strlit("Smembers - Key: ");
            reveal_strlit("Srem - Key: ");
            reveal_strlit("Strlen - Key: ");
            reveal_strlit("TTL - Key: ");
            reveal_strlit("Type - Key: ");
        }
        match self {
            Query::Flushdb() => {
                let mut r = String::from_str("Flushdb");
                r
            },
            Query::Dbsize() => {
                let mut r = String::from_str("Dbsize");
                r
            },
            Query::Copy(a0, a1) => {
                let mut r = String::from_str("Copy - Key: ");
                r.append(a0);
                r.append(" - To_Key: ");
                r.append(a1);
                r
            },
            Query::Del(a0) => {
                let mut r = String::from_str("Del - Key: ");
                r.append(a0);
                r
            },
            Query::Exists(a0) => {
                let mut r = String::from_str("Exists - Key: ");
                r.append(a0);
                r
            },
            Query::Expire(a0, a1) => {
                let mut r = String::from_str("Expire - Key: ");
                r.append(a0);
                r.append(" - Seconds: ");
                r.append(int_to_string(*a1 as i128).as_str());
                r
            },
            Query::ExpireAt(a0, a1) => {
                let mut r = String::from_str("ExpireAt - Key: ");
                r.append(a0);
                r.append(" - Seconds: ");
                r.append(int_to_string(*a1 as i128).as_str());
                r
            },
            Query::Keys(a0) => {
                let mut r = String::from_str("Keys - Pattern: ");
                r.append(a0);
                r
            },
            Query::Persist(a0) => {
                let mut r = String::from_str("Persist - Key: ");
                r.append(a0);
                r
            },
            Query::Rename(a0, a1) => {
                let mut r = String::from_str("Rename - Old_Key ");
                r.append(a0);
                r.append(" - New_Key ");
                r.append(a1);
                r
            },
            Query::Sort(_, _) => {
                let mut r = String::from_str("QueryKeys::Sort - Key:  - Limit   - Alpha  - ASC  - Pattern ");
                r
            },
            Query::Ttl(a0) => {
                let mut r = String::from_str("TTL - Key: ");
                r.append(a0);
                r
            },
            Query::Type(a0) => {
                let mut r = String::from_str("Type - Key: ");
                r.append(a0);
                r
            },
            Query::Get(a0) => {
                let mut r = String::from_str("Get - Key: ");
                r.append(a0);
                r
            },
            Query::Append(a0, a1) => {
                let mut r = String::from_str("Append - Key: ");
                r.append(a0);
                r.append(" - Value: ");
                r.append(a1);
                r.append(" ");
                r
            },
            Query::Incrby(a0, a1) => {
                let mut r = String::from_str("Incrby - Key: ");
                r.append(a0);
                r.append(" - Increment: ");
                r.append(int_to_string(*a1 as i128).as_str());
                r
            },
            Query::Decrby(a0, a1) => {
                let mut r = String::from_str("Decrby - Key: ");
                r.append(a0);
                r.append(" - Increment: ");
                r.append(int_to_string(*a1 as i128).as_str());
                r
            },
            Query::Getdel(a0) => {
                let mut r = String::from_str("Getdel - Key: ");
                r.append(a0);
                r
            },
            Query::Getset(a0, a1) => {
                let mut r = String::from_str("Getset - Key: ");
                r.append(a0);
                r.append(" - Value: ");
                r.append(a1);
                r
            },
            Query::SetValue(a0, a1) => {
                let mut r = String::from_str("Set - Key: ");
                r.append(a0);
                r.append(" - Value: ");
                r.append(a1);
                r
            },
            Query::Strlen(a0) => {
                let mut r = String::from_str("Strlen - Key: ");
                r.append(a0);
                r
            },
            Query::Mset(a0) => {
                let mut r = String::from_str("Mset pair: ");
                r.append(spaced_str(&a0).as_str());
                r
            },
            Query::Mget(a0) => {
                let mut r = String::from_str("Mget Keys: ");
                r.append(spaced_str(&a0).as_str());
                r
            },
            Query::Lindex(a0, a1) => {
                let mut r = String::from_str("Lindex - Key: ");
                r.append(a0);
                r.append(" - Index: ");
                r.append(int_to_string(*a1 as i128).as_str());
                r
            },
            Query::Llen(a0) => {
                let mut r = String::from_str("Llen - Key ");
                r.append(a0);
                r
            },
            Query::Lpop(a0) => {
                let mut r = String::from_str("Lpop - Key ");
                r.append(a0);
                r
            },
            Query::Lpush(a0, a1) => {
                let mut r = String::from_str("Lpush - Key: ");
                r.append(a0);
                r.append(" - Value: ");
                r.append(spaced_str(&a1).as_str());
                r
            },
            Query::Lpushx(a0, a1) => {
                let mut r = String::from_str("Lpushx - Key: ");
                r.append(a0);
                r.append(" - Value: ");
                r.append(spaced_str(&a1).as_str());
                r
            },
            Query::Lrange(a0, a1, a2) => {
                let mut r = String::from_str("Lrange - Key: ");
                r.append(a0);
                r.append(" - Begining: ");
                r.append(int_to_string(*a1 as i128).as_str());
                r.append(" - End ");
                r.append(int_to_string(*a2 as i128).as_str());
                r
            },
            Query::Lrem(a0, a1, a2) => {
                let mut r = String::from_str("Lrem - Key: ");
                r.append(a0);
                r.append(" - Rem: ");
                r.append(int_to_string(*a1 as i128).as_str());
                r.append(" - Value: ");
                r.append(a2);
                r
            },
            Query::Lset(a0, a1, a2) => {
                let mut r = String::from_str("Lset - Key: ");
                r.append(a0);
                r.append(" - Index: ");
                r.append(int_to_string(*a1 as i128).as_str());
                r.append(" - Value: ");
                r.append(a2);
                r
            },
            Query::Rpop(a0) => {
                let mut r = String::from_str("Rpop - Key: ");
                r.append(a0);
                r
            },
            Query::Rpush(a0, a1) => {
                let mut r = String::from_str("Rpush - Key: ");
                r.append(a0);
                r.append(" - Value: ");
                r.append(spaced_str(&a1).as_str());
                r.append(" ");
                r
            },
            Query::Rpushx(a0, a1) => {
                let mut r = String::from_str("Rpushx - Key: ");
                r.append(a0);
                r.append(" - Value: ");
                r.append(spaced_str(&a1).as_str());
                r.append(" ");
                r
            },
            Query::Sadd(a0, a1) => {
                let mut r = String::from_str("Sadd - Key: ");
                r.append(a0);
                r.append(" - Element: ");
                r.append(spaced_str(&a1).as_str());
                r
            },
            Query::Sismember(a0, a1) => {
                let mut r = String::from_str("Sismember - Key: ");
                r.append(a0);
                r.append(" - Element: ");
                r.append(a1);
                r
            },
            Query::Scard(a0) => {
                let mut r = String::from_str("Sismember - Key: ");
                r.append(a0);
                r
            },
            Query::Smembers(a0) => {
                let mut r = String::from_str("Smembers - Key: ");
                r.append(a0);
                r
            },
            Query::Srem(a0, a1) => {
                let mut r = String::from_str("Srem - Key: ");
                r.append(a0);
                r.append(" - members: ");
                r.append(spaced_str(&a1).as_str());
                r
            },
        }
    }
}

/// The words, each followed by a space.
pub fn spaced_str(v: &Vec<&str>) -> (r: String)
    ensures
        r@ == spaced(strs_view(v@)),
{
    proof {
        reveal_strlit(" ");
    }
    let ghost vv = strs_view(v@);
    let mut out = String::new();
    let mut i: usize = 0;
    proof {
        assert(vv.take(0) =~= Seq::<Seq<char>>::empty());
    }
    while i < v.len()
        invariant
            i <= v@.len(),
            vv == strs_view(v@),
            out@ == spaced(vv.take(i as int)),
            " "@ == seq![' '],
        decreases v.len() - i,
    {
        out.append(v[i]);
        out.append(" ");
        proof {
            assert(vv.take(i + 1).drop_last() =~= vv.take(i as int));
            assert(vv.take(i + 1).last() == v@[i as int]@);
        }
        i = i + 1;
    }
    proof {
        assert(vv.take(i as int) =~= vv);
    }
    out
}

} // verus!
