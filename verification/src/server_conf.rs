//! The server's configuration: default options, read from lines
//! `option = value`, asked for by pattern and changed one option at a time.
use vstd::prelude::*;
use crate::assoc::{assoc_map};
use crate::conftable::{ConfTable, put, read_lines, matching_lines};
use crate::text::{spec_parse_i64, spec_parse_u64, parse_i64, parse_u64, int_str, int_to_string};
use crate::strvec::strs_view;

verus! {

/// A reply of the server.
#[derive(Debug, PartialEq)]
pub enum SuccessServerRequest {
    Success,
    String(String),
    List(Vec<SuccessServerRequest>),
}

/// An error of the server.
#[derive(Debug, PartialEq)]
pub enum ServerError {
    NonExistentConfigOption,
    NotAnInteger,
    InvalidPortValue,
    NoSeteableOption(String),
}

/// The mathematical value of a reply of the server.
pub enum ServerReplyForm {
    Success,
    Str(Seq<char>),
    List(Seq<ServerReplyForm>),
}

/// The mathematical value of a reply of the server.
pub open spec fn server_reply_form(q: SuccessServerRequest) -> ServerReplyForm
    decreases q,
{
    match q {
        SuccessServerRequest::Success => ServerReplyForm::Success,
        SuccessServerRequest::String(s) => ServerReplyForm::Str(s@),
        SuccessServerRequest::List(l) => ServerReplyForm::List(
            Seq::new(
                l@.len(),
                |i: int|
                    if 0 <= i < l@.len() {
                        server_reply_form(l@[i])
                    } else {
                        ServerReplyForm::Success
                    },
            ),
        ),
    }
}

impl View for SuccessServerRequest {
    type V = ServerReplyForm;

    open spec fn view(&self) -> ServerReplyForm {
        server_reply_form(*self)
    }
}

/// The text of a reply of the server.
pub open spec fn server_reply_text(q: ServerReplyForm) -> Seq<char>
    decreases q, 0nat,
{
    match q {
        ServerReplyForm::Success => "Ok"@,
        ServerReplyForm::Str(s) => s,
        ServerReplyForm::List(l) => if l.len() == 0 {
            "(empty list or set)"@
        } else {
            server_items_text(l, l.len())
        },
    }
}

/// The texts of the first `n` replies, each followed by a space.
pub open spec fn server_items_text(l: Seq<ServerReplyForm>, n: nat) -> Seq<char>
    decreases l, n,
{
    if n == 0 || n > l.len() {
        Seq::empty()
    } else {
        server_items_text(l, (n - 1) as nat) + server_reply_text(l[n - 1]) + seq![' ']
    }
}

impl SuccessServerRequest {
    /// The text of the reply (see `server_reply_text`).
    pub fn to_string(&self) -> (r: String)
        ensures
            r@ == server_reply_text(self@),
        decreases self,
    {
        proof {
            reveal_strlit("Ok");
            reveal_strlit("(empty list or set)");
            reveal_strlit(" ");
        }
        match self {
            SuccessServerRequest::Success => String::from_str("Ok"),
            SuccessServerRequest::String(s) => s.clone(),
            SuccessServerRequest::List(l) => {
                let ghost lv = self@->List_0;
                if l.len() == 0 {
                    String::from_str("(empty list or set)")
                } else {
                    let mut r = String::new();
                    let mut i: usize = 0;
                    while i < l.len()
                        invariant
                            i <= l@.len(),
                            *self == SuccessServerRequest::List(*l),
                            lv == self@->List_0,
                            r@ == server_items_text(lv, i as nat),
                            " "@ == seq![' '],
                        decreases l.len() - i,
                    {
                        proof {
                            assert(decreases_to!(*self => self->List_0));
                            assert(decreases_to!(*l => l@));
                            assert(decreases_to!(l@ => l@[i as int]));
                        }
                        let t = l[i].to_string();
                        r.append(t.as_str());
                        r.append(" ");
                        i = i + 1;
                    }
                    r
                }
            },
        }
    }
}

/// The message of an error of the server.
pub open spec fn server_error_text(e: ServerError) -> Seq<char> {
    match e {
        ServerError::NonExistentConfigOption => "Non-existent config option"@,
        ServerError::NotAnInteger => "Value isn't an Integer"@,
        ServerError::InvalidPortValue => "Port mus be a value betwen "@ + int_str(MIN_PORT as int)
            + " and "@ + int_str(MAX_PORT as int),
        ServerError::NoSeteableOption(o) => "ERR Unsupported CONFIG parameter: "@ + o@,
    }
}

impl ServerError {
    /// The message of the error (see `server_error_text`).
    pub fn to_string(&self) -> (r: String)
        ensures
            r@ == server_error_text(*self),
    {
        match self {
            ServerError::NonExistentConfigOption => String::from_str("Non-existent config option"),
            ServerError::NotAnInteger => String::from_str("Value isn't an Integer"),
            ServerError::InvalidPortValue => {
                let mut r = String::from_str("Port mus be a value betwen ");
                r.append(int_to_string(MIN_PORT as i128).as_str());
                r.append(" and ");
                r.append(int_to_string(MAX_PORT as i128).as_str());
                r
            },
            ServerError::NoSeteableOption(o) => {
                let mut r = String::from_str("ERR Unsupported CONFIG parameter: ");
                r.append(o.as_str());
                r
            },
        }
    }
}

/// The option that sets how much the server writes.
pub const VERBOSE: &'static str = "verbose";

/// The option of the port the server listens on.
pub const PORT: &'static str = "port";

/// The option of the seconds a client may stay idle.
pub const TIMEOUT: &'static str = "timeout";

/// The option of the file the database is saved to.
pub const DBFILENAME: &'static str = "dbfilename";

/// The option of the file the log is written to.
pub const LOGFILE: &'static str = "logfile";

/// The smallest port the server may listen on.
pub const MIN_PORT: i64 = 1024;

/// The largest port the server may listen on.
pub const MAX_PORT: i64 = 49151;

/// The default options, in this order.
pub open spec fn defaults() -> Seq<(Seq<char>, Seq<char>)> {
    seq![
        ("verbose"@, "0"@),
        ("port"@, "8888"@),
        ("timeout"@, "0"@),
        ("dbfilename"@, "dump.txt"@),
        ("logfile"@, "lf.log"@),
    ]
}

/// The value of option `k`, if set.
pub open spec fn option_value(s: Seq<(Seq<char>, Seq<char>)>, k: Seq<char>) -> Option<Seq<char>> {
    if assoc_map(s).contains_key(k) {
        Some(assoc_map(s)[k])
    } else {
        None
    }
}

/// The number an option holds, as a `u64`, or `default`.
pub open spec fn option_number(s: Seq<(Seq<char>, Seq<char>)>, k: Seq<char>, default: u64) -> u64 {
    match option_value(s, k) {
        Some(v) => match spec_parse_u64(v) {
            Some(n) => n,
            None => default,
        },
        None => default,
    }
}

/// The text an option holds, or `default`.
pub open spec fn option_text(s: Seq<(Seq<char>, Seq<char>)>, k: Seq<char>, default: Seq<char>) -> Seq<char> {
    match option_value(s, k) {
        Some(v) => v,
        None => default,
    }
}

/// The options that hold numbers.
pub open spec fn is_numeric_option(o: Seq<char>) -> bool {
    o == "verbose"@ || o == "timeout"@
}

/// The options that cannot be changed.
pub open spec fn is_fixed_option(o: Seq<char>) -> bool {
    o == "logfile"@ || o == "port"@ || o == "dbfilename"@
}

/// The default options.
fn default_values() -> (r: ConfTable)
    ensures
        r.wf(),
        r@ == defaults(),
{
    proof {
        reveal_strlit("verbose");
        reveal_strlit("port");
        reveal_strlit("timeout");
        reveal_strlit("dbfilename");
        reveal_strlit("logfile");
        assert("verbose"@.len() == 7 && "verbose"@[0] == 'v');
        assert("timeout"@.len() == 7 && "timeout"@[0] == 't');
        assert("port"@.len() == 4);
        assert("dbfilename"@.len() == 10);
        assert("logfile"@.len() == 7 && "logfile"@[0] == 'l');
    }
    let mut t = ConfTable::new();
    t.insert(VERBOSE, "0");
    proof {
        assert(t@ =~= seq![("verbose"@, "0"@)]);
        assert(!crate::assoc::assoc_has(t@, "port"@)) by {
            if crate::assoc::assoc_has(t@, "port"@) {
                let q = choose|q: int| 0 <= q < t@.len() && (#[trigger] t@[q]).0 == "port"@;
                assert(t@[q].0 == "verbose"@);
            }
        }
    }
    t.insert(PORT, "8888");
    proof {
        assert(t@ =~= seq![("verbose"@, "0"@), ("port"@, "8888"@)]);
        assert(!crate::assoc::assoc_has(t@, "timeout"@)) by {
            if crate::assoc::assoc_has(t@, "timeout"@) {
                let q = choose|q: int| 0 <= q < t@.len() && (#[trigger] t@[q]).0 == "timeout"@;
                assert(q == 0 || q == 1);
            }
        }
    }
    t.insert(TIMEOUT, "0");
    proof {
        assert(t@ =~= seq![("verbose"@, "0"@), ("port"@, "8888"@), ("timeout"@, "0"@)]);
        assert(!crate::assoc::assoc_has(t@, "dbfilename"@)) by {
            if crate::assoc::assoc_has(t@, "dbfilename"@) {
                let q = choose|q: int| 0 <= q < t@.len() && (#[trigger] t@[q]).0 == "dbfilename"@;
                assert(q == 0 || q == 1 || q == 2);
            }
        }
    }
    t.insert(DBFILENAME, "dump.txt");
    proof {
        assert(t@ =~= seq![
            ("verbose"@, "0"@),
            ("port"@, "8888"@),
            ("timeout"@, "0"@),
            ("dbfilename"@, "dump.txt"@),
        ]);
        assert(!crate::assoc::assoc_has(t@, "logfile"@)) by {
            if crate::assoc::assoc_has(t@, "logfile"@) {
                let q = choose|q: int| 0 <= q < t@.len() && (#[trigger] t@[q]).0 == "logfile"@;
                assert(q == 0 || q == 1 || q == 2 || q == 3);
            }
        }
    }
    t.insert(LOGFILE, "lf.log");
    proof {
        assert(t@ =~= defaults());
    }
    t
}

/// The server's configuration.
pub struct ServerConf {
    conf: ConfTable,
}

impl View for ServerConf {
    type V = Seq<(Seq<char>, Seq<char>)>;

    closed spec fn view(&self) -> Seq<(Seq<char>, Seq<char>)> {
        self.conf@
    }
}

impl ServerConf {
    /// No option occurs twice.
    pub closed spec fn wf(&self) -> bool {
        self.conf.wf()
    }

    /// A configuration over the given table.
    pub fn new_from_conf(conf: ConfTable) -> (r: ServerConf)
        requires
            conf.wf(),
        ensures
            r.wf(),
            r@ == conf@,
    {
        ServerConf { conf }
    }

    /// The default options, then the lines `option = value` of a
    /// configuration file in turn; fails with `Invalid format config file`
    /// on a line of another form.
    pub fn new(lines: Vec<&str>) -> (r: Result<ServerConf, String>)
        ensures
            match r {
                Ok(c) => c.wf() && read_lines(defaults(), strs_view(lines@)) == Some(c@),
                Err(e) => read_lines(defaults(), strs_view(lines@)) is None && e@
                    == "Invalid format config file"@,
            },
    {
        let mut conf = default_values();
        match conf.read(&lines) {
            Ok(_) => Ok(ServerConf { conf }),
            Err(e) => Err(e),
        }
    }

    /// The port: option `port` as a `u64`, else 8888.
    pub fn port(&self) -> (r: u64)
        requires
            self.wf(),
        ensures
            r == option_number(self@, "port"@, 8888),
    {
        match self.conf.get(PORT) {
            Some(value) => match parse_u64(value.as_str()) {
                Some(v) => v,
                None => 8888,
            },
            None => 8888,
        }
    }

    /// The address to listen on: `0.0.0.0:<port>`.
    pub fn addr(&self) -> (r: String)
        requires
            self.wf(),
        ensures
            r@ == "0.0.0.0:"@ + int_str(option_number(self@, "port"@, 8888) as int),
    {
        let port = self.port();
        let mut r = String::from_str("0.0.0.0:");
        r.append(int_to_string(port as i128).as_str());
        r
    }

    /// The log file: option `logfile`, else `lf.log`.
    pub fn logfile(&self) -> (r: String)
        requires
            self.wf(),
        ensures
            r@ == option_text(self@, "logfile"@, "lf.log"@),
    {
        match self.conf.get(LOGFILE) {
            Some(value) => value.clone(),
            None => String::from_str("lf.log"),
        }
    }

    /// The lines `option: value` of the options that match `pattern`;
    /// `NonExistentConfigOption` when none does.
    pub fn get_config(&self, pattern: &str) -> (r: Result<SuccessServerRequest, ServerError>)
        requires
            self.wf(),
        ensures
            ({
                let lines = matching_lines(self@, pattern@);
                if lines.len() == 0 {
                    r == Err::<SuccessServerRequest, ServerError>(
                        ServerError::NonExistentConfigOption,
                    )
                } else {
                    r is Ok && r->Ok_0@ == ServerReplyForm::List(
                        lines.map_values(|x: Seq<char>| ServerReplyForm::Str(x)),
                    )
                }
            }),
    {
        let found = self.conf.matching(pattern);
        if found.len() == 0 {
            return Err(ServerError::NonExistentConfigOption);
        }
        let ghost lines = matching_lines(self@, pattern@);
        let mut list: Vec<SuccessServerRequest> = Vec::new();
        let mut i: usize = 0;
        while i < found.len()
            invariant
                i <= found@.len(),
                found@.len() == lines.len(),
                forall|q: int| 0 <= q < found@.len() ==> (#[trigger] found@[q])@ == lines[q],
                list@.len() == i,
                forall|q: int|
                    0 <= q < i ==> server_reply_form(#[trigger] list@[q]) == ServerReplyForm::Str(
                        lines[q],
                    ),
            decreases found.len() - i,
        {
            list.push(SuccessServerRequest::String(found[i].clone()));
            i = i + 1;
        }
        let r = SuccessServerRequest::List(list);
        proof {
            assert(r@->List_0 =~= lines.map_values(|x: Seq<char>| ServerReplyForm::Str(x)));
        }
        Ok(r)
    }

    /// Sets `option` to `new_value`: fails with `NotAnInteger` when a
    /// numeric option gets a value that is not an `i64`, with
    /// `NoSeteableOption` for `logfile`, `port` and `dbfilename`, with
    /// `NonExistentConfigOption` for an option that is not set.
    pub fn set_config(&mut self, option: &str, new_value: &str) -> (r: Result<
        SuccessServerRequest,
        ServerError,
    >)
        requires
            old(self).wf(),
        ensures
            final(self).wf(),
            if is_numeric_option(option@) && spec_parse_i64(new_value@) is None {
                r == Err::<SuccessServerRequest, ServerError>(ServerError::NotAnInteger)
                    && final(self)@ == old(self)@
            } else if is_fixed_option(option@) {
                r matches Err(ServerError::NoSeteableOption(o)) && o@ == option@ && final(self)@
                    == old(self)@
            } else if option_value(old(self)@, option@) is Some {
                r == Ok::<SuccessServerRequest, ServerError>(SuccessServerRequest::Success)
                    && final(self)@ == put(old(self)@, option@, new_value@)
            } else {
                r == Err::<SuccessServerRequest, ServerError>(
                    ServerError::NonExistentConfigOption,
                ) && final(self)@ == old(self)@
            },
    {
        proof {
            reveal_strlit("verbose");
            reveal_strlit("timeout");
            reveal_strlit("logfile");
            reveal_strlit("port");
            reveal_strlit("dbfilename");
        }
        let o = String::from_str(option);
        let numeric = o == String::from_str(VERBOSE) || o == String::from_str(TIMEOUT);
        if numeric && parse_i64(new_value).is_none() {
            return Err(ServerError::NotAnInteger);
        }
        if o == String::from_str(LOGFILE) || o == String::from_str(PORT) || o == String::from_str(
            DBFILENAME,
        ) {
            return Err(ServerError::NoSeteableOption(o));
        }
        if self.conf.get(option).is_some() {
            if o == String::from_str(PORT) {
                match parse_i64(new_value) {
                    Some(value) => {
                        if MIN_PORT <= value && value <= MAX_PORT {
                            self.conf.insert(option, new_value);
                            Ok(SuccessServerRequest::Success)
                        } else {
                            Err(ServerError::InvalidPortValue)
                        }
                    },
                    None => Err(ServerError::NotAnInteger),
                }
            } else {
                self.conf.insert(option, new_value);
                Ok(SuccessServerRequest::Success)
            }
        } else {
            Err(ServerError::NonExistentConfigOption)
        }
    }

    /// The idle time allowed: option `timeout` as a `u64`, else 0.
    pub fn time_out(&self) -> (r: u64)
        requires
            self.wf(),
        ensures
            r == option_number(self@, "timeout"@, 0),
    {
        match self.conf.get(TIMEOUT) {
            Some(value) => match parse_u64(value.as_str()) {
                Some(v) => v,
                None => 0,
            },
            None => 0,
        }
    }

    /// The dump file: option `dbfilename`, else `dump.txt`.
    pub fn dbfilename(&self) -> (r: String)
        requires
            self.wf(),
        ensures
            r@ == option_text(self@, "dbfilename"@, "dump.txt"@),
    {
        match self.conf.get(DBFILENAME) {
            Some(value) => value.clone(),
            None => String::from_str("dump.txt"),
        }
    }

    /// Whether option `verbose` is a `u64` other than 0.
    pub fn verbose(&self) -> (r: bool)
        requires
            self.wf(),
        ensures
            r == (match option_value(self@, "verbose"@) {
                Some(v) => match spec_parse_u64(v) {
                    Some(n) => n != 0,
                    None => false,
                },
                None => false,
            }),
    {
        match self.conf.get(VERBOSE) {
            Some(value) => match parse_u64(value.as_str()) {
                Some(v) => v != 0,
                None => false,
            },
            None => false,
        }
    }
}

} // verus!
