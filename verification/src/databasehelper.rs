//! The values a key can hold, the replies and errors of the database, the
//! flags of `sort` and the messages of the time-to-live supervisor.
use vstd::prelude::*;
use crate::text::{int_str, int_to_string, words, split_ws, is_token, is_ws, lemma_words_token_then};
use crate::strvec::{add_members, strs_view, lemma_add_members_unique};

verus! {

/// What a key of the database holds.
#[derive(Debug)]
pub enum StorageValue {
    String(String),
    List(Vec<String>),
    /// The members of a set, each once, in the order they were added.
    StringSet(Vec<String>),
}

/// The mathematical value of a `StorageValue`.
pub enum ValueView {
    Str(Seq<char>),
    List(Seq<Seq<char>>),
    Members(Seq<Seq<char>>),
}

/// The character sequences of a list of strings.
pub open spec fn strings_view(v: Seq<String>) -> Seq<Seq<char>> {
    v.map_values(|s: String| s@)
}

impl View for StorageValue {
    type V = ValueView;

    open spec fn view(&self) -> ValueView {
        match self {
            StorageValue::String(s) => ValueView::Str(s@),
            StorageValue::List(l) => ValueView::List(strings_view(l@)),
            StorageValue::StringSet(m) => ValueView::Members(strings_view(m@)),
        }
    }
}

impl ValueView {
    /// A set holds no member twice.
    pub open spec fn wf(self) -> bool {
        match self {
            ValueView::Members(m) => m.no_duplicates(),
            _ => true,
        }
    }
}

/// A copy of a list of strings.
pub fn copy_strings(v: &Vec<String>) -> (r: Vec<String>)
    ensures
        strings_view(r@) == strings_view(v@),
        r@.len() == v@.len(),
{
    let mut r: Vec<String> = Vec::new();
    let mut i: usize = 0;
    while i < v.len()
        invariant
            i <= v.len(),
            strings_view(r@) == strings_view(v@).take(i as int),
            r@.len() == i,
        decreases v.len() - i,
    {
        r.push(v[i].clone());
        i = i + 1;
        assert(strings_view(r@) =~= strings_view(v@).take(i as int));
    }
    assert(strings_view(v@).take(i as int) =~= strings_view(v@));
    r
}

/// The name `get_type` gives the kind of a value.
pub open spec fn kind_name(v: ValueView) -> Seq<char> {
    match v {
        ValueView::Str(_) => "String"@,
        ValueView::List(_) => "List"@,
        ValueView::Members(_) => "Set"@,
    }
}


/// The items, each followed by a space.
pub open spec fn spaced(items: Seq<Seq<char>>) -> Seq<char>
    decreases items.len(),
{
    if items.len() == 0 {
        Seq::empty()
    } else {
        spaced(items.drop_last()) + items.last() + seq![' ']
    }
}

/// `spaced` read from the front: the first item, a space, then the rest.
pub proof fn lemma_spaced_front(items: Seq<Seq<char>>)
    requires
        items.len() > 0,
    ensures
        spaced(items) == items[0] + seq![' '] + spaced(items.drop_first()),
    decreases items.len(),
{
    if items.len() == 1 {
        assert(items.drop_last().len() == 0);
        assert(items.drop_first().len() == 0);
        assert(spaced(items.drop_last()) == Seq::<char>::empty());
        assert(spaced(items.drop_first()) == Seq::<char>::empty());
        assert(Seq::<char>::empty() + items[0] + seq![' '] =~= items[0] + seq![' '] + Seq::<char>::empty());
    } else {
        let p = items.drop_last();
        lemma_spaced_front(p);
        assert(p.drop_first() =~= items.drop_first().drop_last());
        assert(items.drop_first().last() == items.last());
        assert(p[0] == items[0]);
        assert(spaced(items.drop_first()) == spaced(p.drop_first()) + items.last() + seq![' ']);
        assert(spaced(items) == spaced(p) + items.last() + seq![' ']);
        assert(items[0] + seq![' '] + spaced(p.drop_first()) + items.last() + seq![' '] =~= items[0]
            + seq![' '] + (spaced(p.drop_first()) + items.last() + seq![' ']));
    }
}

/// Items that are words, each followed by a space, split back into the
/// same items.
pub proof fn lemma_words_spaced(items: Seq<Seq<char>>)
    requires
        forall|i: int| 0 <= i < items.len() ==> is_token(#[trigger] items[i]),
    ensures
        words(spaced(items)) == items,
    decreases items.len(),
{
    if items.len() == 0 {
        assert(words(Seq::<char>::empty()) =~= Seq::<Seq<char>>::empty());
    } else {
        let rest = items.drop_first();
        lemma_spaced_front(items);
        assert(is_token(items[0]));
        assert(is_ws(' '));
        lemma_words_token_then(items[0], ' ', spaced(rest));
        assert forall|i: int| 0 <= i < rest.len() implies is_token(#[trigger] rest[i]) by {
            assert(rest[i] == items[i + 1]);
        }
        lemma_words_spaced(rest);
        assert(seq![items[0]] + rest =~= items);
    }
}

/// The items of a list, each followed by a space.
pub fn spaced_text(items: &Vec<String>) -> (r: String)
    ensures
        r@ == spaced(strings_view(items@)),
{
    proof {
        reveal_strlit(" ");
    }
    let ghost iv = strings_view(items@);
    let mut out = String::new();
    let mut i: usize = 0;
    proof {
        assert(iv.take(0) =~= Seq::<Seq<char>>::empty());
    }
    while i < items.len()
        invariant
            i <= items@.len(),
            iv == strings_view(items@),
            out@ == spaced(iv.take(i as int)),
            " "@ == seq![' '],
        decreases items.len() - i,
    {
        out.append(items[i].as_str());
        out.append(" ");
        proof {
            assert(iv.take(i + 1).drop_last() =~= iv.take(i as int));
            assert(iv.take(i + 1).last() == items@[i as int]@);
        }
        i = i + 1;
    }
    proof {
        assert(iv.take(i as int) =~= iv);
    }
    out
}

/// The text of a value: a string as it is, the items of a list or a set
/// each followed by a space.
pub open spec fn value_text(v: ValueView) -> Seq<char> {
    match v {
        ValueView::Str(s) => s,
        ValueView::List(l) => spaced(l),
        ValueView::Members(m) => spaced(m),
    }
}

/// Every text the value holds is a word: non-empty, without whitespace.
pub open spec fn made_of_words(v: ValueView) -> bool {
    match v {
        ValueView::Str(s) => is_token(s),
        ValueView::List(l) => forall|i: int| 0 <= i < l.len() ==> is_token(#[trigger] l[i]),
        ValueView::Members(m) => forall|i: int| 0 <= i < m.len() ==> is_token(#[trigger] m[i]),
    }
}

/// The text a value is stored as in the dump file: its kind, a space and
/// its text.
pub open spec fn serialized(v: ValueView) -> Seq<char> {
    kind_name(v) + seq![' '] + value_text(v)
}

/// The value a stored text describes: `String` and one word, or `List` or
/// `Set` and any words (a set keeps each word once); none otherwise.
pub open spec fn unserialized(text: Seq<char>) -> Option<ValueView> {
    let w = words(text);
    if w.len() == 2 && w[0] == "String"@ {
        Some(ValueView::Str(w[1]))
    } else if w.len() >= 1 && w[0] == "List"@ {
        Some(ValueView::List(w.drop_first()))
    } else if w.len() >= 1 && w[0] == "Set"@ {
        Some(ValueView::Members(add_members(Seq::empty(), w.drop_first())))
    } else {
        None
    }
}

/// The reason a stored text describes no value.
#[derive(Debug, PartialEq, Eq, Structural)]
pub enum StorageValueError {
    NonExisten,
}

impl StorageValue {
    /// A copy of the value.
    pub fn duplicate(&self) -> (r: StorageValue)
        ensures
            r@ == self@,
    {
        match self {
            StorageValue::String(s) => StorageValue::String(s.clone()),
            StorageValue::List(l) => StorageValue::List(copy_strings(l)),
            StorageValue::StringSet(m) => StorageValue::StringSet(copy_strings(m)),
        }
    }

    /// The text of the value (see `value_text`).
    pub fn to_string(&self) -> (r: String)
        ensures
            r@ == value_text(self@),
    {
        match self {
            StorageValue::String(s) => s.clone(),
            StorageValue::List(l) => spaced_text(l),
            StorageValue::StringSet(m) => spaced_text(m),
        }
    }

    /// The text the value is stored as (see `serialized`).
    pub fn serialize(&self) -> (r: String)
        ensures
            r@ == serialized(self@),
    {
        proof {
            reveal_strlit(" ");
        }
        let mut r = self.get_type();
        r.append(" ");
        let t = self.to_string();
        r.append(t.as_str());
        r
    }

    /// The value a stored text describes (see `unserialized`), or
    /// `NonExisten`.
    pub fn unserialize(value: &str) -> (r: Result<StorageValue, StorageValueError>)
        ensures
            match r {
                Ok(v) => unserialized(value@) == Some(v@) && v@.wf(),
                Err(e) => unserialized(value@) is None && e == StorageValueError::NonExisten,
            },
    {
        proof {
            reveal_strlit("String");
            reveal_strlit("List");
            reveal_strlit("Set");
        }
        let w = split_ws(value);
        let ghost wv = words(value@);
        proof {
            assert(strs_view(w@) =~= wv);
        }
        let string_word = String::from_str("String");
        let list_word = String::from_str("List");
        let set_word = String::from_str("Set");
        if w.len() == 0 {
            return Err(StorageValueError::NonExisten);
        }
        let first = String::from_str(w[0]);
        if w.len() == 2 && first == string_word {
            return Ok(StorageValue::String(String::from_str(w[1])));
        }
        let mut rest: Vec<String> = Vec::new();
        let mut i: usize = 1;
        while i < w.len()
            invariant
                1 <= i <= w@.len(),
                wv == strs_view(w@),
                strings_view(rest@) == wv.subrange(1, i as int),
            decreases w.len() - i,
        {
            let ghost o = strings_view(rest@);
            rest.push(String::from_str(w[i]));
            proof {
                assert(strings_view(rest@) =~= o.push(w@[i as int]@));
                assert(wv.subrange(1, i + 1) =~= wv.subrange(1, i as int).push(wv[i as int]));
            }
            i = i + 1;
        }
        proof {
            assert(wv.subrange(1, i as int) =~= wv.drop_first());
        }
        if first == list_word {
            Ok(StorageValue::List(rest))
        } else if first == set_word {
            let mut m: Vec<String> = Vec::new();
            let mut k: usize = 0;
            let ghost rv = strings_view(rest@);
            proof {
                assert(rv.take(0) =~= Seq::<Seq<char>>::empty());
                assert(strings_view(m@) =~= Seq::<Seq<char>>::empty());
            }
            while k < rest.len()
                invariant
                    k <= rest@.len(),
                    rv == strings_view(rest@),
                    strings_view(m@) == add_members(Seq::empty(), rv.take(k as int)),
                decreases rest.len() - k,
            {
                proof {
                    assert(rv.take(k + 1).drop_last() =~= rv.take(k as int));
                    assert(rv.take(k + 1).last() == rest@[k as int]@);
                }
                match crate::strvec::position_of(&m, rest[k].as_str()) {
                    Some(j) => {
                        proof {
                            assert(strings_view(m@)[j as int] == rest@[k as int]@);
                        }
                    },
                    None => {
                        let ghost o = strings_view(m@);
                        m.push(rest[k].clone());
                        proof {
                            assert(strings_view(m@) =~= o.push(rest@[k as int]@));
                        }
                    },
                }
                k = k + 1;
            }
            proof {
                assert(rv.take(k as int) =~= rv);
                lemma_add_members_unique(Seq::empty(), rv);
            }
            Ok(StorageValue::StringSet(m))
        } else {
            Err(StorageValueError::NonExisten)
        }
    }

    /// The name of the kind of value: `String`, `List` or `Set`.
    pub fn get_type(&self) -> (r: String)
        ensures
            r@ == kind_name(self@),
    {
        match self {
            StorageValue::String(_) => String::from_str("String"),
            StorageValue::List(_) => String::from_str("List"),
            StorageValue::StringSet(_) => String::from_str("Set"),
        }
    }
}

/// The options of `sort`.
pub enum SortFlags<'a> {
    /// Numbers, ascending.
    WithoutFlags,
    /// Strings, in lexicographic order.
    Alpha,
    /// Numbers, descending.
    Desc,
    /// Numbers, ascending, then the given count of them from the given
    /// offset.
    Limit(i32, i32),
    /// Ordered by the weights that the keys matching the pattern hold.
    By(&'a str),
    /// Several options together.
    CompositeFlags(Vec<SortFlags<'a>>),
}

/// A reply of the database.
#[derive(Debug, PartialEq)]
pub enum SuccessQuery {
    Success,
    Boolean(bool),
    Integer(i32),
    String(String),
    List(Vec<SuccessQuery>),
    Nil,
}

/// The mathematical value of a reply.
pub enum QueryView {
    Success,
    Boolean(bool),
    Integer(i32),
    Str(Seq<char>),
    List(Seq<QueryView>),
    Nil,
}

/// The mathematical value of a reply.
pub open spec fn query_view(q: SuccessQuery) -> QueryView
    decreases q,
{
    match q {
        SuccessQuery::Success => QueryView::Success,
        SuccessQuery::Boolean(b) => QueryView::Boolean(b),
        SuccessQuery::Integer(n) => QueryView::Integer(n),
        SuccessQuery::String(s) => QueryView::Str(s@),
        SuccessQuery::List(l) => QueryView::List(
            Seq::new(
                l@.len(),
                |i: int|
                    if 0 <= i < l@.len() {
                        query_view(l@[i])
                    } else {
                        QueryView::Nil
                    },
            ),
        ),
        SuccessQuery::Nil => QueryView::Nil,
    }
}

/// The values of the items of a list reply.
pub open spec fn list_view(l: Seq<SuccessQuery>) -> Seq<QueryView> {
    Seq::new(l.len(), |i: int| query_view(l[i]))
}

/// The value of a list reply is the list of the values of its items.
pub proof fn lemma_list_view(l: Vec<SuccessQuery>)
    ensures
        query_view(SuccessQuery::List(l)) == QueryView::List(list_view(l@)),
{
    let q = query_view(SuccessQuery::List(l));
    let s = q->List_0;
    assert(s.len() == l@.len());
    assert forall|i: int| 0 <= i < s.len() implies s[i] == query_view(l@[i]) by {}
    assert(s =~= list_view(l@));
}

impl View for SuccessQuery {
    type V = QueryView;

    open spec fn view(&self) -> QueryView {
        query_view(*self)
    }
}

/// A list reply of strings.
pub open spec fn strings_reply(s: Seq<Seq<char>>) -> QueryView {
    QueryView::List(s.map_values(|x: Seq<char>| QueryView::Str(x)))
}

/// The mathematical value of a result of the database.
pub open spec fn result_view(r: Result<SuccessQuery, DataBaseError>) -> Result<
    QueryView,
    DataBaseError,
> {
    match r {
        Ok(q) => Ok(q@),
        Err(e) => Err(e),
    }
}

/// An error of the database.
#[derive(Debug, PartialEq, Eq, Structural)]
pub enum DataBaseError {
    NotAString,
    NonExistentKey,
    NotAnInteger,
    KeyAlredyExist,
    NotASet,
    NotAList,
    IndexOutOfRange,
    SortParseError,
    SortByParseError,
    NonExistentConfigOption,
}


/// The text of a reply, as a client is shown it.
pub open spec fn query_text(q: QueryView) -> Seq<char>
    decreases q, 0nat,
{
    match q {
        QueryView::Success => "Ok"@,
        QueryView::Boolean(b) => "(integer) "@ + (if b {
            "1"@
        } else {
            "0"@
        }),
        QueryView::Integer(n) => "(integer) "@ + int_str(n as int),
        QueryView::Str(s) => s,
        QueryView::List(l) => if l.len() == 0 {
            "(empty list or set)"@
        } else {
            items_text(l, l.len())
        },
        QueryView::Nil => "(Nil)"@,
    }
}

/// The texts of the first `n` replies, each followed by a space.
pub open spec fn items_text(l: Seq<QueryView>, n: nat) -> Seq<char>
    decreases l, n,
{
    if n == 0 || n > l.len() {
        Seq::empty()
    } else {
        items_text(l, (n - 1) as nat) + query_text(l[n - 1]) + seq![' ']
    }
}

impl SuccessQuery {
    /// The text of the reply (see `query_text`).
    pub fn to_string(&self) -> (r: String)
        ensures
            r@ == query_text(self@),
        decreases self,
    {
        proof {
            reveal_strlit("Ok");
            reveal_strlit("(integer) ");
            reveal_strlit("1");
            reveal_strlit("0");
            reveal_strlit("(empty list or set)");
            reveal_strlit("(Nil)");
            reveal_strlit(" ");
        }
        match self {
            SuccessQuery::Success => String::from_str("Ok"),
            SuccessQuery::Boolean(b) => {
                let mut r = String::from_str("(integer) ");
                if *b {
                    r.append("1");
                } else {
                    r.append("0");
                }
                r
            },
            SuccessQuery::Integer(n) => {
                let mut r = String::from_str("(integer) ");
                let t = int_to_string(*n as i128);
                r.append(t.as_str());
                r
            },
            SuccessQuery::String(s) => s.clone(),
            SuccessQuery::List(l) => {
                proof {
                    lemma_list_view(*l);
                }
                let ghost lv = list_view(l@);
                if l.len() == 0 {
                    String::from_str("(empty list or set)")
                } else {
                    let mut r = String::new();
                    let mut i: usize = 0;
                    while i < l.len()
                        invariant
                            i <= l@.len(),
                            *self == SuccessQuery::List(*l),
                            lv == list_view(l@),
                            r@ == items_text(lv, i as nat),
                            " "@ == seq![' '],
                        decreases l.len() - i,
                    {
                        proof {
                            assert(decreases_to!(*self => self->List_0));
                            assert(decreases_to!(*l => l@));
                            assert(decreases_to!(l@ => l@[i as int]));
                            assert(decreases_to!(*self => l@[i as int]));
                        }
                        let t = l[i].to_string();
                        r.append(t.as_str());
                        r.append(" ");
                        i = i + 1;
                    }
                    r
                }
            },
            SuccessQuery::Nil => String::from_str("(Nil)"),
        }
    }
}

/// The message of an error.
pub open spec fn error_text(e: DataBaseError) -> Seq<char> {
    match e {
        DataBaseError::NonExistentKey => "Non-existent key"@,
        DataBaseError::NotAString => "Value isn't a String"@,
        DataBaseError::NotAnInteger => "Value isn't an Integer"@,
        DataBaseError::KeyAlredyExist => "the key alredy exist in the database"@,
        DataBaseError::NotASet => "element of key isn't a Set"@,
        DataBaseError::IndexOutOfRange => "index out of range"@,
        DataBaseError::NotAList => "Value isn't a List"@,
        DataBaseError::SortParseError => "One or more elements in list/set are not numeric type"@,
        DataBaseError::SortByParseError => "pattern has keys that values hasn't parse to number"@,
        DataBaseError::NonExistentConfigOption => "Non-existent config option"@,
    }
}

impl DataBaseError {
    /// The message of the error (see `error_text`).
    pub fn to_string(&self) -> (r: String)
        ensures
            r@ == error_text(*self),
    {
        match self {
            DataBaseError::NonExistentKey => String::from_str("Non-existent key"),
            DataBaseError::NotAString => String::from_str("Value isn't a String"),
            DataBaseError::NotAnInteger => String::from_str("Value isn't an Integer"),
            DataBaseError::KeyAlredyExist => String::from_str(
                "the key alredy exist in the database",
            ),
            DataBaseError::NotASet => String::from_str("element of key isn't a Set"),
            DataBaseError::IndexOutOfRange => String::from_str("index out of range"),
            DataBaseError::NotAList => String::from_str("Value isn't a List"),
            DataBaseError::SortParseError => String::from_str(
                "One or more elements in list/set are not numeric type",
            ),
            DataBaseError::SortByParseError => String::from_str(
                "pattern has keys that values hasn't parse to number",
            ),
            DataBaseError::NonExistentConfigOption => String::from_str("Non-existent config option"),
        }
    }
}

/// A key together with the time, in seconds since the Unix epoch, at which
/// it expires.
#[derive(Debug)]
pub struct KeyTtl {
    pub key: String,
    pub expire_time: u64,
}

impl KeyTtl {
    /// A key with its expiry time.
    pub fn new(key: &str, expire_time: u64) -> (r: KeyTtl)
        ensures
            r.key@ == key@,
            r.expire_time == expire_time,
    {
        KeyTtl { key: String::from_str(key), expire_time }
    }
}

/// A request to the time-to-live supervisor of the database.
pub enum MessageTtl {
    /// Let the key expire at the given time.
    Expire(KeyTtl),
    /// The key no longer expires.
    Clear(String),
    /// The second key takes over the expiry time of the first.
    Transfer(String, String),
    /// Asks for the expiry time of the key.
    Ttl(String),
    /// Removes the key if its expiry time has come.
    Check(String),
    /// Asks for every key that expires.
    AllTtL,
}

/// An answer of the time-to-live supervisor.
#[derive(Debug)]
pub enum RespondTtl {
    /// The key expires at this time.
    Ttl(u64),
    /// The key does not expire.
    Persistent,
    /// The keys that expire, in order of expiry time.
    List(Vec<KeyTtl>),
}

} // verus!
