//! The web front end's own logic: the command a posted form carries, and
//! the HTML list of the requests sent so far with their answers.
use vstd::prelude::*;
use vstd::utf8::{encode_utf8, decode_utf8, is_char_boundary};
use crate::text::{words, split_ws, is_substring, contains_str};
use crate::strvec::strs_view;

verus! {

/// The index of the first word that holds `to`.
pub open spec fn first_to_word(ws: Seq<Seq<char>>) -> Option<int>
    decreases ws.len(),
{
    if ws.len() == 0 {
        None
    } else if is_substring("to"@, ws[0]) {
        Some(0)
    } else {
        match first_to_word(ws.drop_first()) {
            Some(i) => Some(i + 1),
            None => None,
        }
    }
}

/// `s` with each `+` turned into a space.
pub open spec fn plus_to_space(s: Seq<char>) -> Seq<char> {
    s.map_values(|c: char| if c == '+' { ' ' } else { c })
}

/// The request has a word holding `to`, and the first such word can be
/// cut after its first three bytes.
pub open spec fn command_word_ok(request: Seq<char>) -> bool {
    match first_to_word(words(request)) {
        Some(i) => is_char_boundary(encode_utf8(words(request)[i]), 3),
        None => false,
    }
}

/// The command of a posted form: the first word of the request that holds
/// `to`, after its first three bytes, with each `+` turned into a space.
pub open spec fn command_of(request: Seq<char>) -> Seq<char> {
    let w = words(request)[first_to_word(words(request))->Some_0];
    let b = encode_utf8(w);
    plus_to_space(decode_utf8(b.subrange(3, b.len() as int)))
}

proof fn lemma_first_to_word(ws: Seq<Seq<char>>, i: int)
    requires
        0 <= i <= ws.len(),
        forall|j: int| 0 <= j < i ==> !is_substring("to"@, #[trigger] ws[j]),
    ensures
        first_to_word(ws) == match first_to_word(ws.skip(i)) {
            Some(k) => Some(k + i),
            None => None::<int>,
        },
    decreases i,
{
    if i == 0 {
        assert(ws.skip(0) =~= ws);
    } else {
        let t = ws.drop_first();
        assert forall|j: int| 0 <= j < i - 1 implies !is_substring("to"@, #[trigger] t[j]) by {
            assert(t[j] == ws[j + 1]);
        }
        lemma_first_to_word(t, i - 1);
        assert(t.skip(i - 1) =~= ws.skip(i));
        assert(!is_substring("to"@, ws[0]));
    }
}

/// Calls `str::split_at` at byte 3 and keeps the second part.
fn after_three_bytes(w: &str) -> (r: &str)
    requires
        is_char_boundary(encode_utf8(w@), 3),
    ensures
        r@ == decode_utf8(encode_utf8(w@).subrange(3, encode_utf8(w@).len() as int)),
{
    let (_, rest) = w.split_at(3);
    proof {
        vstd::utf8::encode_utf8_decode_utf8(rest@);
    }
    rest
}

/// Decides `command_word_ok`: whether `get_command` can read the request.
pub fn has_command(request: &str) -> (b: bool)
    ensures
        b == command_word_ok(request@),
{
    proof {
        reveal_strlit("to");
    }
    let ws = split_ws(request);
    let ghost wv = words(request@);
    proof {
        assert(strs_view(ws@) =~= wv);
    }
    let mut i: usize = 0;
    while i < ws.len() && !contains_str(ws[i], "to")
        invariant
            i <= ws@.len(),
            wv == strs_view(ws@),
            wv == words(request@),
            forall|j: int| 0 <= j < i ==> !is_substring("to"@, #[trigger] wv[j]),
        decreases ws.len() - i,
    {
        i = i + 1;
    }
    proof {
        lemma_first_to_word(wv, i as int);
        if i == ws.len() {
            assert(wv.skip(i as int) =~= Seq::<Seq<char>>::empty());
        } else {
            assert(wv.skip(i as int)[0] == wv[i as int]);
        }
    }
    if i == ws.len() {
        return false;
    }
    ws[i].is_char_boundary(3)
}

/// The command a posted form carries (see `command_of`).
pub fn get_command(request: &str) -> (r: String)
    requires
        command_word_ok(request@),
    ensures
        r@ == command_of(request@),
{
    proof {
        reveal_strlit("to");
        reveal_strlit(" ");
    }
    let ws = split_ws(request);
    let ghost wv = words(request@);
    proof {
        assert(strs_view(ws@) =~= wv);
    }
    let mut i: usize = 0;
    while i < ws.len() && !contains_str(ws[i], "to")
        invariant
            i <= ws@.len(),
            wv == strs_view(ws@),
            wv == words(request@),
            command_word_ok(request@),
            forall|j: int| 0 <= j < i ==> !is_substring("to"@, #[trigger] wv[j]),
        decreases ws.len() - i,
    {
        i = i + 1;
    }
    proof {
        lemma_first_to_word(wv, i as int);
        if i == ws.len() {
            assert(wv.skip(i as int) =~= Seq::<Seq<char>>::empty());
        }
        assert(wv.skip(i as int)[0] == wv[i as int]);
        assert(first_to_word(wv) == Some(i as int));
    }
    let body = ws[i];
    let rest = after_three_bytes(body);
    let ghost rv = rest@;
    let n = rest.unicode_len();
    let mut out = String::new();
    let mut k: usize = 0;
    while k < n
        invariant
            k <= n,
            n == rv.len(),
            rest@ == rv,
            " "@ == seq![' '],
            out@ == plus_to_space(rv.take(k as int)),
        decreases n - k,
    {
        let c = rest.get_char(k);
        if c == '+' {
            out.append(" ");
        } else {
            out.append(rest.substring_char(k, k + 1));
        }
        proof {
            assert(plus_to_space(rv.take(k + 1)) =~= plus_to_space(rv.take(k as int)).push(
                if c == '+' { ' ' } else { c },
            ));
        }
        k = k + 1;
    }
    proof {
        assert(rv.take(k as int) =~= rv);
    }
    out
}

/// The list item of one request and its answer.
pub open spec fn record_item(req: Seq<char>, res: Seq<char>) -> Seq<char> {
    "<li>Request: "@ + req + " Reponse: "@ + res + "</li>"@
}

/// The list items of the records, in order.
pub open spec fn record_items(records: Seq<(Seq<char>, Seq<char>)>) -> Seq<char>
    decreases records.len(),
{
    if records.len() == 0 {
        Seq::empty()
    } else {
        record_items(records.drop_last()) + record_item(records.last().0, records.last().1)
    }
}

/// The HTML the answers are shown with: a closing `div`, the opening of
/// the `answer` division, then an ordered list of the records.
pub open spec fn answer_html(records: Seq<(Seq<char>, Seq<char>)>) -> Seq<char> {
    "</div>"@ + "<div id=\"answer\">"@ + "<ol>"@ + record_items(records) + "</ol>"@
}

/// The HTML of the records (see `answer_html`).
pub fn build_answer(records: &Vec<(String, String)>) -> (r: String)
    ensures
        r@ == answer_html(records@.map_values(|p: (String, String)| (p.0@, p.1@))),
{
    let ghost rv = records@.map_values(|p: (String, String)| (p.0@, p.1@));
    let mut out = String::from_str("</div>");
    out.append("<div id=\"answer\">");
    out.append("<ol>");
    let ghost head = out@;
    let mut i: usize = 0;
    proof {
        assert(rv.take(0) =~= Seq::<(Seq<char>, Seq<char>)>::empty());
    }
    while i < records.len()
        invariant
            i <= records@.len(),
            rv == records@.map_values(|p: (String, String)| (p.0@, p.1@)),
            out@ == head + record_items(rv.take(i as int)),
        decreases records.len() - i,
    {
        out.append("<li>Request: ");
        out.append(records[i].0.as_str());
        out.append(" Reponse: ");
        out.append(records[i].1.as_str());
        out.append("</li>");
        proof {
            assert(rv.take(i + 1).drop_last() =~= rv.take(i as int));
            assert(rv.take(i + 1).last() == rv[i as int]);
        }
        i = i + 1;
    }
    out.append("</ol>");
    proof {
        assert(rv.take(i as int) =~= rv);
    }
    out
}

} // verus!
