//! The string commands of a line of text, read word by word.
use vstd::prelude::*;
use crate::text::{words, split_ws};
use crate::strvec::strs_view;

verus! {

/// A string command.
pub enum Command<'a> {
    Append(&'a str, &'a str),
    Incrby(&'a str, &'a str),
    Decrby(&'a str, &'a str),
    SetValue(&'a str, &'a str),
    Get(&'a str),
    Getdel(&'a str),
    Getset(&'a str, &'a str),
    Strlen(&'a str),
    /// All the words of the line, `mset` first.
    Mset(Vec<&'a str>),
    /// All the words of the line, `mget` first.
    Mget(Vec<&'a str>),
    Print,
    Unknown,
}

/// The mathematical value of a command.
pub enum CommandForm {
    Append(Seq<char>, Seq<char>),
    Incrby(Seq<char>, Seq<char>),
    Decrby(Seq<char>, Seq<char>),
    SetValue(Seq<char>, Seq<char>),
    Get(Seq<char>),
    Getdel(Seq<char>),
    Getset(Seq<char>, Seq<char>),
    Strlen(Seq<char>),
    Mset(Seq<Seq<char>>),
    Mget(Seq<Seq<char>>),
    Print,
    Unknown,
}

impl<'a> View for Command<'a> {
    type V = CommandForm;

    open spec fn view(&self) -> CommandForm {
        match *self {
            Command::Append(a, b) => CommandForm::Append(a@, b@),
            Command::Incrby(a, b) => CommandForm::Incrby(a@, b@),
            Command::Decrby(a, b) => CommandForm::Decrby(a@, b@),
            Command::SetValue(a, b) => CommandForm::SetValue(a@, b@),
            Command::Get(a) => CommandForm::Get(a@),
            Command::Getdel(a) => CommandForm::Getdel(a@),
            Command::Getset(a, b) => CommandForm::Getset(a@, b@),
            Command::Strlen(a) => CommandForm::Strlen(a@),
            Command::Mset(v) => CommandForm::Mset(strs_view(v@)),
            Command::Mget(v) => CommandForm::Mget(strs_view(v@)),
            Command::Print => CommandForm::Print,
            Command::Unknown => CommandForm::Unknown,
        }
    }
}

/// The command the words of a line make.
pub open spec fn command_form(ws: Seq<Seq<char>>) -> CommandForm {
    let n = ws.len();
    if n == 3 && ws[0] == "append"@ {
        CommandForm::Append(ws[1], ws[2])
    } else if n == 3 && ws[0] == "incrby"@ {
        CommandForm::Incrby(ws[1], ws[2])
    } else if n == 3 && ws[0] == "decrby"@ {
        CommandForm::Decrby(ws[1], ws[2])
    } else if n == 3 && ws[0] == "set"@ {
        CommandForm::SetValue(ws[1], ws[2])
    } else if n == 2 && ws[0] == "get"@ {
        CommandForm::Get(ws[1])
    } else if n == 2 && ws[0] == "getdel"@ {
        CommandForm::Getdel(ws[1])
    } else if n == 3 && ws[0] == "getset"@ {
        CommandForm::Getset(ws[1], ws[2])
    } else if n == 2 && ws[0] == "strlen"@ {
        CommandForm::Strlen(ws[1])
    } else if n >= 1 && ws[0] == "mset"@ {
        CommandForm::Mset(ws)
    } else if n >= 1 && ws[0] == "mget"@ {
        CommandForm::Mget(ws)
    } else if n == 1 && ws[0] == "print"@ {
        CommandForm::Print
    } else {
        CommandForm::Unknown
    }
}

/// The word at position `i` is `lit`.
fn is_word(w: &Vec<&str>, i: usize, lit: &str) -> (r: bool)
    ensures
        r == (i < w@.len() && w@[i as int]@ == lit@),
{
    if i < w.len() {
        String::from_str(w[i]) == String::from_str(lit)
    } else {
        false
    }
}

impl<'a> Command<'a> {
    /// Reads the words of a line as a command (see `command_form`).
    pub fn new(command: &'a str) -> (r: Command<'a>)
        ensures
            r@ == command_form(words(command@)),
    {
        let w = split_ws(command);
        proof {
            assert(strs_view(w@) =~= words(command@));
        }
        let n = w.len();
        if n == 3 && is_word(&w, 0, "append") {
            Command::Append(w[1], w[2])
        } else if n == 3 && is_word(&w, 0, "incrby") {
            Command::Incrby(w[1], w[2])
        } else if n == 3 && is_word(&w, 0, "decrby") {
            Command::Decrby(w[1], w[2])
        } else if n == 3 && is_word(&w, 0, "set") {
            Command::SetValue(w[1], w[2])
        } else if n == 2 && is_word(&w, 0, "get") {
            Command::Get(w[1])
        } else if n == 2 && is_word(&w, 0, "getdel") {
            Command::Getdel(w[1])
        } else if n == 3 && is_word(&w, 0, "getset") {
            Command::Getset(w[1], w[2])
        } else if n == 2 && is_word(&w, 0, "strlen") {
            Command::Strlen(w[1])
        } else if n >= 1 && is_word(&w, 0, "mset") {
            Command::Mset(w)
        } else if n >= 1 && is_word(&w, 0, "mget") {
            Command::Mget(w)
        } else if n == 1 && is_word(&w, 0, "print") {
            Command::Print
        } else {
            Command::Unknown
        }
    }
}

} // verus!
