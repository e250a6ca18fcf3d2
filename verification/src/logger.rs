//! The logger: it takes the messages of the `Logger` channel from its queue
//! and gives each as a line of the log file.
use vstd::prelude::*;
use std::sync::mpsc::Receiver;

verus! {

/// Calls `Receiver::recv`: the next message of the queue, waiting for one,
/// or `None` once every sending end is gone.  Nothing is stated of the
/// message: it is whatever another thread sent.
#[verifier::external_body]
fn receive(reciver: &Receiver<String>) -> Option<String> {
    reciver.recv().ok()
}

/// The line of the log file for a message: the message and a newline.
pub fn log_line(msg: &str) -> (r: String)
    ensures
        r@ == msg@ + seq!['\n'],
{
    proof {
        reveal_strlit("\n");
    }
    let mut r = String::from_str(msg);
    r.append("\n");
    r
}

/// A logger writing to the file at `file_path` the messages it receives.
pub struct Logger {
    file_path: String,
    reciver: Receiver<String>,
}

impl Logger {
    /// The path of the log file, as text.
    pub closed spec fn path(&self) -> Seq<char> {
        self.file_path@
    }

    /// A logger for the file at `file_path`, taking its messages from
    /// `reciver`.
    pub fn new(file_path: &str, reciver: Receiver<String>) -> (r: Logger)
        ensures
            r.path() == file_path@,
    {
        Logger { file_path: String::from_str(file_path), reciver }
    }

    /// The path of the log file.
    pub fn file_path(&self) -> (r: &String)
        ensures
            r@ == self.path(),
    {
        &self.file_path
    }

    /// The line for the next message, once one arrives; `None` once nobody
    /// can send any more.  Whatever message arrives, the line is that
    /// message followed by a newline.
    pub fn next_line(&self) -> (r: Option<String>)
        ensures
            r matches Some(l) ==> l@.len() > 0 && l@.last() == '\n',
    {
        match receive(&self.reciver) {
            Some(msg) => Some(log_line(msg.as_str())),
            None => None,
        }
    }
}

} // verus!
