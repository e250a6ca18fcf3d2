//! Glob-style patterns (`*` for any run of characters, `?` for one, and a
//! set of characters in braces such as `{ae}`, `{^e}` or `{a-b}`), matched by
//! translating them into an anchored regular expression.
use vstd::prelude::*;

verus! {

/// What `regex_search` gives back for a pattern and a haystack.
pub uninterp spec fn regex_outcome(pattern: Seq<char>, haystack: Seq<char>) -> Option<bool>;

/// Calls `regex::Regex::new(pattern)` and, when that succeeds,
/// `Regex::is_match(haystack)` on the result.  The contract claims only that
/// the outcome is a function of the two texts: `None` when `Regex::new`
/// returns an error, otherwise `Some` of whether the regular expression
/// matches somewhere in `haystack`.  What the regular expression language
/// means is not stated.
#[verifier::external_body]
fn regex_search(pattern: &str, haystack: &str) -> (r: Option<bool>)
    ensures
        r == regex_outcome(pattern@, haystack@),
{
    match regex::Regex::new(pattern) {
        Ok(re) => Some(re.is_match(haystack)),
        Err(_) => None,
    }
}

/// What a pattern character becomes in the regular expression.
pub open spec fn glob_char(c: char) -> Seq<char> {
    if c == '*' {
        seq!['.', '*']
    } else if c == '?' {
        seq!['.']
    } else if c == '{' {
        seq!['[']
    } else if c == '}' {
        seq![']']
    } else {
        seq![c]
    }
}

/// The pattern with each `*` written `.*`, each `?` written `.`, and the
/// braces of a character set written as brackets.
pub open spec fn glob_body(p: Seq<char>) -> Seq<char>
    decreases p.len(),
{
    if p.len() == 0 {
        Seq::empty()
    } else {
        glob_body(p.drop_last()) + glob_char(p.last())
    }
}

/// The regular expression of a pattern, anchored at both ends.
pub open spec fn glob_regex(p: Seq<char>) -> Seq<char> {
    seq!['^'] + glob_body(p) + seq!['$']
}

/// `text` matches the glob `pattern`: its regular expression compiles and
/// matches.
pub open spec fn glob_matches(text: Seq<char>, pattern: Seq<char>) -> bool {
    regex_outcome(glob_regex(pattern), text) == Some(true)
}

/// The anchored regular expression of a glob pattern.
pub fn glob_to_regex(pattern: &str) -> (r: String)
    ensures
        r@ == glob_regex(pattern@),
{
    proof {
        reveal_strlit("^");
        reveal_strlit("$");
        reveal_strlit(".*");
        reveal_strlit(".");
        assert(".*"@ =~= seq!['.', '*']);
        assert("."@ =~= seq!['.']);
        assert("^"@ =~= seq!['^']);
        assert("$"@ =~= seq!['$']);
    }
    let n = pattern.unicode_len();
    let mut r = String::from_str("^");
    let mut i: usize = 0;
    while i < n
        invariant
            n == pattern@.len(),
            i <= n,
            r@ == seq!['^'] + glob_body(pattern@.take(i as int)),
        decreases n - i,
    {
        let c = pattern.get_char(i);
        let ghost r0 = r@;
        proof {
            reveal_strlit(".*");
            reveal_strlit(".");
            reveal_strlit("[");
            reveal_strlit("]");
            assert(".*"@ =~= seq!['.', '*']);
            assert("."@ =~= seq!['.']);
            assert("["@ =~= seq!['[']);
            assert("]"@ =~= seq![']']);
        }
        if c == '*' {
            r.append(".*");
        } else if c == '?' {
            r.append(".");
        } else if c == '{' {
            r.append("[");
        } else if c == '}' {
            r.append("]");
        } else {
            r.append(pattern.substring_char(i, i + 1));
        }
        proof {
            let t = pattern@.take(i + 1);
            assert(t.drop_last() =~= pattern@.take(i as int));
            assert(t.last() == c);
            if c != '*' && c != '?' && c != '{' && c != '}' {
                assert(pattern@.subrange(i as int, i + 1) =~= seq![c]);
            }
            assert(r@ =~= r0 + glob_char(c));
            assert(glob_body(t) == glob_body(t.drop_last()) + glob_char(t.last()));
        }
        i = i + 1;
        assert(r@ =~= seq!['^'] + glob_body(pattern@.take(i as int)));
    }
    r.append("$");
    assert(pattern@.take(n as int) =~= pattern@);
    r
}

/// Reads the outcome of a regular-expression search: a match was found.
pub fn match_found(outcome: Option<bool>) -> (b: bool)
    ensures
        b == (outcome == Some(true)),
{
    match outcome {
        Some(found) => found,
        None => false,
    }
}

/// `text` matches the glob `pattern`; a pattern whose regular expression
/// does not compile matches nothing.
pub fn matcher(text: &str, pattern: &str) -> (b: bool)
    ensures
        b == glob_matches(text@, pattern@),
{
    let re = glob_to_regex(pattern);
    match_found(regex_search(re.as_str(), text))
}

} // verus!
