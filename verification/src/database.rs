//! The database: a dictionary of strings, lists and sets, keys that expire,
//! and the commands of the `KEYS`, `STRINGS`, `LISTS` and `SETS` groups.
use vstd::prelude::*;
use crate::clock::clock_secs;
use crate::databasehelper::{StorageValue, ValueView, SuccessQuery, QueryView, DataBaseError, SortFlags,
    copy_strings,
    KeyTtl, MessageTtl, RespondTtl, result_view, kind_name, strings_view, list_view,
    lemma_list_view};
use crate::hash_shard::{HashShard, EntryView};
use crate::text::{parse_i32, spec_parse_i32, int_to_string, int_str, all_digits, digits_value,
    digit_val};
use crate::ttl::{TtlTable, ttl_pairs};
use crate::assoc::{keys_unique, assoc_map};
use crate::matcher::{matcher, glob_matches};
use crate::sorting::{by_weight, positioned, weight_order, sort_alpha, sort_by_weight, alpha_order,
    lemma_sort_by_len, lemma_number_orders, lemma_alpha_order};
use crate::sortflags::{limit_view, clamp_pos, build_view, str_replies, numeric_sort, sort_fits,
    sort_outcome, numbers_sorted, flags_have_limit, flags_have_desc, flags_have_alpha,
    flags_first_by, flags_first_limit, has_limit, has_desc, has_alpha, has_by, first_by,
    first_limit, limit_desc_pair, apply_flags, apply_flags_len, lemma_apply_flags_len};
use crate::text::{first_index, find_char, is_substring, contains_str, split_on, split_char, words, split_ws, spec_parse_i64,
    parse_i64};
use crate::databasehelper::{serialized, unserialized};
use crate::databasehelper::strings_reply;
use crate::strvec::{lrem_list, without_first, without_last, appended, position_of, add_members,
    without_members, members_without, strs_view, lemma_add_members_unique, lemma_without_members};

verus! {

/// `k` is in the dictionary and its expiry time, if any, is still to come.
pub open spec fn key_live(
    d: Map<Seq<char>, EntryView>,
    t: Map<Seq<char>, u64>,
    now: u64,
    k: Seq<char>,
) -> bool {
    d.contains_key(k) && !(t.contains_key(k) && t[k] <= now)
}

/// `d` with `k`, if present, marked as accessed at `now`.
pub open spec fn touched(d: Map<Seq<char>, EntryView>, k: Seq<char>, now: u64) -> Map<
    Seq<char>,
    EntryView,
> {
    if d.contains_key(k) {
        d.insert(k, (d[k].0, now))
    } else {
        d
    }
}

/// The length in bytes of the UTF-8 encoding of `s`.
pub open spec fn str_bytes(s: Seq<char>) -> usize {
    vstd::utf8::encode_utf8(s).len() as usize
}

/// The reply of `get`.
pub open spec fn get_reply(
    d: Map<Seq<char>, EntryView>,
    t: Map<Seq<char>, u64>,
    now: u64,
    k: Seq<char>,
) -> Result<QueryView, DataBaseError> {
    if !key_live(d, t, now, k) {
        Ok(QueryView::Nil)
    } else {
        match d[k].0 {
            ValueView::Str(s) => Ok(QueryView::Str(s)),
            _ => Err(DataBaseError::NotAString),
        }
    }
}

/// The dictionary after `get`: a live key is marked as accessed.
pub open spec fn get_dict(
    d: Map<Seq<char>, EntryView>,
    t: Map<Seq<char>, u64>,
    now: u64,
    k: Seq<char>,
) -> Map<Seq<char>, EntryView> {
    if key_live(d, t, now, k) {
        touched(d, k, now)
    } else {
        d
    }
}

/// The dictionary that `decrby` works on: a key that is not live is first
/// set to the string `0`.
pub open spec fn decr_base(
    d: Map<Seq<char>, EntryView>,
    t: Map<Seq<char>, u64>,
    now: u64,
    k: Seq<char>,
) -> Map<Seq<char>, EntryView> {
    if key_live(d, t, now, k) {
        d
    } else {
        d.insert(k, (ValueView::Str("0"@), now))
    }
}

/// The reply of `decrby` on the dictionary `decr_base` gives.
pub open spec fn decrby_reply(d1: Map<Seq<char>, EntryView>, k: Seq<char>, decr: int) -> Result<
    QueryView,
    DataBaseError,
> {
    match d1[k].0 {
        ValueView::Str(s) => match spec_parse_i32(s) {
            Some(n) => if i32::MIN <= n - decr <= i32::MAX {
                Ok(QueryView::Integer((n - decr) as i32))
            } else {
                Err(DataBaseError::NotAnInteger)
            },
            None => Err(DataBaseError::NotAnInteger),
        },
        _ => Err(DataBaseError::NotAString),
    }
}

/// The dictionary after `decrby`, from the one `decr_base` gives.
pub open spec fn decrby_dict(
    d1: Map<Seq<char>, EntryView>,
    k: Seq<char>,
    decr: int,
    now: u64,
) -> Map<Seq<char>, EntryView> {
    match d1[k].0 {
        ValueView::Str(s) => match spec_parse_i32(s) {
            Some(n) => if i32::MIN <= n - decr <= i32::MAX {
                d1.insert(k, (ValueView::Str(int_str(n - decr)), now))
            } else {
                d1
            },
            None => d1,
        },
        _ => d1,
    }
}


/// The item `mget` gives for a key: its string, else `Nil`.
pub open spec fn mget_item(
    d: Map<Seq<char>, EntryView>,
    t: Map<Seq<char>, u64>,
    now: u64,
    k: Seq<char>,
) -> QueryView {
    match get_reply(d, t, now, k) {
        Ok(q) => q,
        Err(_) => QueryView::Nil,
    }
}

/// The dictionary after reading the keys `ks`: each live one is marked as
/// accessed.
pub open spec fn mget_dict(
    d: Map<Seq<char>, EntryView>,
    t: Map<Seq<char>, u64>,
    now: u64,
    ks: Seq<Seq<char>>,
) -> Map<Seq<char>, EntryView> {
    Map::new(
        |k: Seq<char>| d.contains_key(k),
        |k: Seq<char>|
            if ks.contains(k) && key_live(d, t, now, k) {
                (d[k].0, now)
            } else {
                d[k]
            },
    )
}

/// The dictionary after setting the first `n` key/value pairs of `ps`.
pub open spec fn mset_dict(
    d: Map<Seq<char>, EntryView>,
    ps: Seq<Seq<char>>,
    n: nat,
    now: u64,
) -> Map<Seq<char>, EntryView>
    decreases n,
{
    if n == 0 {
        d
    } else {
        mset_dict(d, ps, (n - 1) as nat, now).insert(
            ps[2 * n - 2],
            (ValueView::Str(ps[2 * n - 1]), now),
        )
    }
}

/// The expiry times after setting the first `n` key/value pairs of `ps`.
pub open spec fn mset_ttls(t: Map<Seq<char>, u64>, ps: Seq<Seq<char>>, n: nat) -> Map<
    Seq<char>,
    u64,
>
    decreases n,
{
    if n == 0 {
        t
    } else {
        mset_ttls(t, ps, (n - 1) as nat).remove(ps[2 * n - 2])
    }
}

/// The expiry times after `rename` moves the expiry time of `a` to `b`.
pub open spec fn transferred(t: Map<Seq<char>, u64>, a: Seq<char>, b: Seq<char>) -> Map<
    Seq<char>,
    u64,
> {
    if t.contains_key(a) {
        t.remove(a).remove(b).insert(b, t[a])
    } else {
        t.remove(b)
    }
}

/// The keys of `ks` that match the glob `pattern`, in order.
pub open spec fn keys_matching(ks: Seq<Seq<char>>, pattern: Seq<char>) -> Seq<Seq<char>>
    decreases ks.len(),
{
    if ks.len() == 0 {
        ks
    } else {
        let pre = keys_matching(ks.drop_last(), pattern);
        if glob_matches(ks.last(), pattern) {
            pre.push(ks.last())
        } else {
            pre
        }
    }
}

/// The name of a value's type: `string`, `list` or `set`.
pub open spec fn value_type_word(v: ValueView) -> Seq<char> {
    match v {
        ValueView::Str(_) => "string"@,
        ValueView::List(_) => "list"@,
        ValueView::Members(_) => "set"@,
    }
}

/// The keys whose expiry time has come at `now`.
pub open spec fn due(t: Map<Seq<char>, u64>, now: u64, k: Seq<char>) -> bool {
    t.contains_key(k) && t[k] <= now
}

/// The position that an index of `lindex` or `lrange` designates in a list
/// of `len` elements: a negative index counts from the end.
pub open spec fn list_pos(len: nat, index: i32) -> int {
    if index < 0 {
        (len as i32) as int + index
    } else {
        index as int
    }
}

/// A list reply of the strings of `s`.
pub open spec fn str_items(s: Seq<Seq<char>>) -> QueryView {
    strings_reply(s)
}


/// The key that weighs item `e` for the pattern `p`: `p` with its first `*`
/// replaced by `e`, or `p` itself when it has no `*`.
pub open spec fn star_key(p: Seq<char>, e: Seq<char>) -> Seq<char> {
    match first_index(p, '*') {
        Some(i) => p.take(i) + e + p.skip(i + 1),
        None => p,
    }
}

/// The weight the key `k` gives: the number a live key holding a string
/// holds (`None` when that string is not an `i32`), zero when `k` is not a
/// live key holding a string.
pub open spec fn weight_for(
    d: Map<Seq<char>, EntryView>,
    t: Map<Seq<char>, u64>,
    now: u64,
    k: Seq<char>,
) -> Option<i32> {
    if key_live(d, t, now, k) && d[k].0 is Str {
        spec_parse_i32(d[k].0->Str_0)
    } else {
        Some(0i32)
    }
}

/// The weights of the items, each from its key `star_key(p, item)`, if each
/// has one.
pub open spec fn item_weights(
    items: Seq<Seq<char>>,
    p: Seq<char>,
    d: Map<Seq<char>, EntryView>,
    t: Map<Seq<char>, u64>,
    now: u64,
) -> Option<Seq<i32>> {
    if forall|i: int|
        0 <= i < items.len() ==> (#[trigger] weight_for(d, t, now, star_key(p, items[i]))) is Some {
        Some(items.map_values(|e: Seq<char>| weight_for(d, t, now, star_key(p, e))->Some_0))
    } else {
        None
    }
}

/// The items ordered by their weights, or `SortByParseError`.
pub open spec fn by_result(
    items: Seq<Seq<char>>,
    p: Seq<char>,
    d: Map<Seq<char>, EntryView>,
    t: Map<Seq<char>, u64>,
    now: u64,
) -> Result<Seq<Seq<char>>, DataBaseError> {
    match item_weights(items, p, d, t, now) {
        Some(ws) => Ok(by_weight(items, ws)),
        None => Err(DataBaseError::SortByParseError),
    }
}

/// The replies of a list of results.
pub open spec fn replies_of(r: Result<Vec<SuccessQuery>, DataBaseError>) -> Result<
    Seq<QueryView>,
    DataBaseError,
> {
    match r {
        Ok(v) => Ok(list_view(v@)),
        Err(e) => Err(e),
    }
}

/// String replies of an outcome.
pub open spec fn outcome_replies(o: Result<Seq<Seq<char>>, DataBaseError>) -> Result<
    Seq<QueryView>,
    DataBaseError,
> {
    match o {
        Ok(s) => Ok(str_replies(s)),
        Err(e) => Err(e),
    }
}

/// The list or set at `k`, if any, suits `sort` with these options.
pub open spec fn sort_input_fits<'a>(
    d: Map<Seq<char>, EntryView>,
    k: Seq<char>,
    flags: SortFlags<'a>,
) -> bool {
    d.contains_key(k) ==> match d[k].0 {
        ValueView::List(l) => sort_fits(l.len() as int, flags),
        ValueView::Members(m) => sort_fits(m.len() as int, flags),
        ValueView::Str(_) => true,
    }
}


/// The `TTL` line of the dump after its first word: `Key:<key>,Ttl:<secs>;`
/// for each key that expires.
pub open spec fn ttl_text(es: Seq<(Seq<char>, u64)>) -> Seq<char>
    decreases es.len(),
{
    if es.len() == 0 {
        Seq::empty()
    } else {
        ttl_text(es.drop_last()) + "Key:"@ + es.last().0 + ",Ttl:"@ + int_str(es.last().1 as int)
            + ";"@
    }
}

/// The value lines of the dump: `Key:<key>,<serialized value>` for each key
/// of `ks`, each ended by a newline.
pub open spec fn value_lines(ks: Seq<Seq<char>>, d: Map<Seq<char>, EntryView>) -> Seq<char>
    decreases ks.len(),
{
    if ks.len() == 0 {
        Seq::empty()
    } else {
        value_lines(ks.drop_last(), d) + "Key:"@ + ks.last() + ","@ + serialized(d[ks.last()].0)
            + "\n"@
    }
}

/// The line starts with the characters `TTL`.
pub open spec fn is_ttl_line(line: Seq<char>) -> bool {
    line.len() >= 3 && line[0] == 'T' && line[1] == 'T' && line[2] == 'L'
}

/// The pieces of `parts` that are not empty, in order.
pub open spec fn nonempty_parts(parts: Seq<Seq<char>>) -> Seq<Seq<char>>
    decreases parts.len(),
{
    if parts.len() == 0 {
        parts
    } else {
        let pre = nonempty_parts(parts.drop_last());
        if parts.last().len() > 0 {
            pre.push(parts.last())
        } else {
            pre
        }
    }
}

/// The `Key:<key>,Ttl:<secs>` items of a `TTL` line.
pub open spec fn ttl_items(line: Seq<char>) -> Seq<Seq<char>> {
    let w = words(line);
    if w.len() > 1 {
        nonempty_parts(split_on(w[1], ';'))
    } else {
        Seq::empty()
    }
}

/// An item of a `TTL` line has a key and a time that is a non-negative
/// `i64`.
pub open spec fn ttl_item_ok(item: Seq<char>) -> bool {
    let kv = split_on(item, ',');
    &&& kv.len() >= 2
    &&& split_on(kv[0], ':').len() >= 2
    &&& split_on(kv[1], ':').len() >= 2
    &&& spec_parse_i64(split_on(kv[1], ':')[1]) is Some
    &&& spec_parse_i64(split_on(kv[1], ':')[1])->Some_0 >= 0
}

/// The key and time of an item of a `TTL` line.
pub open spec fn ttl_item(item: Seq<char>) -> (Seq<char>, i64) {
    let kv = split_on(item, ',');
    (split_on(kv[0], ':')[1], spec_parse_i64(split_on(kv[1], ':')[1])->Some_0)
}

/// A value line has a key and a value part.
pub open spec fn value_line_ok(line: Seq<char>) -> bool {
    split_on(line, ',').len() >= 2 && split_on(split_on(line, ',')[0], ':').len() >= 2
}

/// The key and value of a value line, when its value part describes one.
pub open spec fn value_line(line: Seq<char>) -> Option<(Seq<char>, ValueView)> {
    let kv = split_on(line, ',');
    match unserialized(kv[1]) {
        Some(v) => Some((split_on(kv[0], ':')[1], v)),
        None => None,
    }
}

/// A line of the dump can be read: a `TTL` line whose items each have a
/// key and a non-negative time, or a value line with a key and a value
/// part.
pub open spec fn dump_line_ok(line: Seq<char>) -> bool {
    if is_ttl_line(line) {
        forall|i: int| 0 <= i < ttl_items(line).len() ==> ttl_item_ok(#[trigger] ttl_items(line)[i])
    } else {
        value_line_ok(line)
    }
}

/// The line's UTF-8 encoding has at least three bytes, and the first three
/// end at a character.
pub open spec fn line_cut_ok(line: Seq<char>) -> bool {
    vstd::utf8::is_char_boundary(vstd::utf8::encode_utf8(line), 3)
}

/// The dictionary after the value lines among `lines` are stored, in order,
/// each accessed at `now`.
pub open spec fn loaded_values(
    d: Map<Seq<char>, EntryView>,
    lines: Seq<Seq<char>>,
    now: u64,
) -> Map<Seq<char>, EntryView>
    decreases lines.len(),
{
    if lines.len() == 0 {
        d
    } else {
        let pre = loaded_values(d, lines.drop_last(), now);
        let line = lines.last();
        if !is_ttl_line(line) && value_line(line) is Some {
            pre.insert(value_line(line)->Some_0.0, (value_line(line)->Some_0.1, now))
        } else {
            pre
        }
    }
}

/// The keys and times of the `TTL` lines among `lines`, in order.
pub open spec fn loaded_expires(lines: Seq<Seq<char>>) -> Seq<(Seq<char>, i64)>
    decreases lines.len(),
{
    if lines.len() == 0 {
        Seq::empty()
    } else {
        let pre = loaded_expires(lines.drop_last());
        let line = lines.last();
        if is_ttl_line(line) {
            pre + ttl_items(line).map_values(|it: Seq<char>| ttl_item(it))
        } else {
            pre
        }
    }
}

/// What `expireat` does at `now`: the dictionary, the expiry times and its
/// answer.
pub open spec fn expireat_step(
    d: Map<Seq<char>, EntryView>,
    t: Map<Seq<char>, u64>,
    now: u64,
    k: Seq<char>,
    secs: i64,
) -> (Map<Seq<char>, EntryView>, Map<Seq<char>, u64>, bool) {
    if !key_live(d, t, now, k) {
        (d, t, false)
    } else if secs <= now {
        (d.remove(k), t, true)
    } else {
        (touched(d, k, now), t.insert(k, secs as u64), true)
    }
}

/// `expireat_step` for each key and time in turn.
pub open spec fn expire_all(
    d: Map<Seq<char>, EntryView>,
    t: Map<Seq<char>, u64>,
    now: u64,
    es: Seq<(Seq<char>, i64)>,
) -> (Map<Seq<char>, EntryView>, Map<Seq<char>, u64>)
    decreases es.len(),
{
    if es.len() == 0 {
        (d, t)
    } else {
        let pre = expire_all(d, t, now, es.drop_last());
        let st = expireat_step(pre.0, pre.1, now, es.last().0, es.last().1);
        (st.0, st.1)
    }
}


/// Taking one more piece adds it to the non-empty pieces when it is not
/// empty.
pub proof fn lemma_nonempty_prefix(pv: Seq<Seq<char>>, k: int)
    requires
        0 <= k < pv.len(),
    ensures
        nonempty_parts(pv.take(k + 1)) == if pv[k].len() > 0 {
            nonempty_parts(pv.take(k)).push(pv[k])
        } else {
            nonempty_parts(pv.take(k))
        },
{
    assert(pv.take(k + 1).drop_last() =~= pv.take(k));
    assert(pv.take(k + 1).last() == pv[k]);
}

/// The non-empty pieces of a prefix come first among those of the whole.
pub proof fn lemma_nonempty_prefix_of(pv: Seq<Seq<char>>, m: int)
    requires
        0 <= m <= pv.len(),
    ensures
        nonempty_parts(pv.take(m)).len() <= nonempty_parts(pv).len(),
        forall|i: int|
            0 <= i < nonempty_parts(pv.take(m)).len() ==> nonempty_parts(pv.take(m))[i]
                == #[trigger] nonempty_parts(pv)[i],
    decreases pv.len() - m,
{
    if m == pv.len() {
        assert(pv.take(m) =~= pv);
    } else {
        lemma_nonempty_prefix_of(pv, m + 1);
        lemma_nonempty_prefix(pv, m);
    }
}

/// The database.
pub struct Database {
    dictionary: HashShard,
    ttl: TtlTable,
    db_dump_path: String,
    clock: u64,
}

impl Database {
    /// The dictionary and the table of expiry times are well formed.
    pub closed spec fn wf(&self) -> bool {
        self.dictionary.wf() && self.ttl.wf()
    }

    /// Each key with its value and last access time.
    pub closed spec fn dict(&self) -> Map<Seq<char>, EntryView> {
        self.dictionary@
    }

    /// Each key that expires with its expiry time.
    pub closed spec fn ttls(&self) -> Map<Seq<char>, u64> {
        self.ttl@
    }

    /// The time, in seconds since the Unix epoch, at which the clock was
    /// last read.
    pub closed spec fn now(&self) -> u64 {
        self.clock
    }

    /// The file the database is dumped to.
    pub closed spec fn dump_path(&self) -> Seq<char> {
        self.db_dump_path@
    }

    /// The keys that expire with their expiry times, in order of expiry time.
    pub closed spec fn ttl_entries(&self) -> Seq<(Seq<char>, u64)> {
        self.ttl.entries_view()
    }

    /// The order in which `keys` lists the keys.
    pub closed spec fn keys_seq(&self) -> Seq<Seq<char>> {
        self.dictionary.keys_seq()
    }

    /// `k` is live at the clock of this state.
    pub open spec fn live(&self, k: Seq<char>) -> bool {
        key_live(self.dict(), self.ttls(), self.now(), k)
    }

    /// The keys in `keys_seq` order, each once; every value is well formed.
    pub proof fn lemma_wf(&self)
        requires
            self.wf(),
        ensures
            self.keys_seq().no_duplicates(),
            forall|k: Seq<char>| self.keys_seq().contains(k) <==> self.dict().contains_key(k),
            self.keys_seq().len() == self.dict().dom().len(),
            forall|k: Seq<char>| #[trigger] self.dict().contains_key(k) ==> self.dict()[k].0.wf(),
    {
        self.dictionary.lemma_keys_seq();
        self.dictionary.lemma_values_wf();
    }

    /// The expiry entries have distinct keys and give the expiry times.
    pub proof fn lemma_ttl_entries(&self)
        requires
            self.wf(),
        ensures
            keys_unique(self.ttl_entries()),
            self.ttls() == assoc_map(self.ttl_entries()),
    {
        self.ttl.lemma_entries();
    }

    /// An empty database that dumps to `db_dump_path`.
    pub fn new(db_dump_path: String) -> (r: Database)
        ensures
            r.wf(),
            r.dict() == Map::<Seq<char>, EntryView>::empty(),
            r.ttls() == Map::<Seq<char>, u64>::empty(),
            r.dump_path() == db_dump_path@,
    {
        let clock = clock_secs();
        Database { dictionary: HashShard::new(), ttl: TtlTable::new(), db_dump_path, clock }
    }

    /// A database over the given dictionary and table of expiry times.
    pub fn new_from_db(ttl: TtlTable, dictionary: HashShard, db_dump_path: String) -> (r: Database)
        requires
            ttl.wf(),
            dictionary.wf(),
        ensures
            r.wf(),
            r.dict() == dictionary@,
            r.ttls() == ttl@,
            r.dump_path() == db_dump_path@,
    {
        let clock = clock_secs();
        Database { dictionary, ttl, db_dump_path, clock }
    }

    /// The dictionary.
    pub fn dictionary(&self) -> (r: &HashShard)
        ensures
            r@ == self.dict(),
            self.wf() ==> r.wf(),
    {
        &self.dictionary
    }

    /// The file the database is dumped to.
    pub fn db_dump_path(&self) -> (r: &String)
        ensures
            r@ == self.dump_path(),
    {
        &self.db_dump_path
    }

    /// Reads the clock.
    fn tick(&mut self)
        ensures
            final(self).dict() == old(self).dict(),
            final(self).ttls() == old(self).ttls(),
            final(self).dump_path() == old(self).dump_path(),
            final(self).wf() == old(self).wf(),
            final(self).keys_seq() == old(self).keys_seq(),
    {
        self.clock = clock_secs();
    }

    /// `key` is live.
    fn _exists(&self, key: &str) -> (r: bool)
        requires
            self.wf(),
        ensures
            r == self.live(key@),
    {
        let contains_key = self.dictionary.contains_key(key);
        let expire_time_passed = match self.ttl.get(key) {
            Some(t) => t <= self.clock,
            None => false,
        };
        !expire_time_passed && contains_key
    }

    /// Handles one request to the time-to-live supervisor: `Expire`, `Clear`
    /// and `Transfer` change the expiry times, `Check` removes a key whose
    /// expiry time has come, `Ttl` and `AllTtL` are answered.
    pub fn ttl_supervisor_run(&mut self, message: MessageTtl) -> (r: Option<RespondTtl>)
        requires
            old(self).wf(),
        ensures
            final(self).wf(),
            final(self).now() == old(self).now(),
            final(self).dump_path() == old(self).dump_path(),
            match message {
                MessageTtl::Expire(e) => r is None && final(self).dict() == old(self).dict()
                    && final(self).ttls() == old(self).ttls().insert(e.key@, e.expire_time),
                MessageTtl::Clear(k) => r is None && final(self).dict() == old(self).dict()
                    && final(self).ttls() == old(self).ttls().remove(k@),
                MessageTtl::Transfer(a, b) => r is None && final(self).dict() == old(self).dict()
                    && final(self).ttls() == (if old(self).ttls().contains_key(a@) {
                    old(self).ttls().remove(a@).remove(b@).insert(b@, old(self).ttls()[a@])
                } else {
                    old(self).ttls().remove(b@)
                }),
                MessageTtl::Ttl(k) => final(self).dict() == old(self).dict() && final(self).ttls()
                    == old(self).ttls() && r == (if old(self).ttls().contains_key(k@) {
                    Some(RespondTtl::Ttl(old(self).ttls()[k@]))
                } else {
                    Some(RespondTtl::Persistent)
                }),
                MessageTtl::Check(k) => r is None && if old(self).ttls().contains_key(k@)
                    && old(self).ttls()[k@] <= old(self).now() {
                    final(self).dict() == old(self).dict().remove(k@) && final(self).ttls()
                        == old(self).ttls().remove(k@)
                } else {
                    final(self).dict() == old(self).dict() && final(self).ttls() == old(
                        self,
                    ).ttls()
                },
                MessageTtl::AllTtL => final(self).dict() == old(self).dict() && final(self).ttls()
                    == old(self).ttls() && match r {
                    Some(RespondTtl::List(l)) => ttl_pairs(l@) == old(self).ttl_entries(),
                    _ => false,
                },
            },
    {
        match message {
            MessageTtl::Expire(e) => {
                self.ttl.expire(e);
                None
            },
            MessageTtl::Clear(k) => {
                self.ttl.clear(k.as_str());
                None
            },
            MessageTtl::Transfer(a, b) => {
                self.ttl.transfer(a.as_str(), b.as_str());
                None
            },
            MessageTtl::Ttl(k) => match self.ttl.get(k.as_str()) {
                Some(t) => Some(RespondTtl::Ttl(t)),
                None => Some(RespondTtl::Persistent),
            },
            MessageTtl::Check(k) => {
                if let Some(t) = self.ttl.get(k.as_str()) {
                    if t <= self.clock {
                        self.dictionary.remove(k.as_str());
                        self.ttl.clear(k.as_str());
                    }
                }
                None
            },
            MessageTtl::AllTtL => Some(RespondTtl::List(self.ttl.list())),
        }
    }

    // KEYS

    /// What `flushdb` gives and, where it changes the database, the state it
    /// leaves, from the state `pre` it finds.
    pub open spec fn flushdb_post(pre: Database, post: Database, r: Result<SuccessQuery, DataBaseError>) -> bool {
        &&& post.wf()
        &&& post.now() == pre.now()
        &&& post.dump_path() == pre.dump_path()
        &&& post.dict() == Map::<Seq<char>, EntryView>::empty()
        &&& post.ttls() == pre.ttls()
        &&& result_view(r) == Ok::<QueryView, DataBaseError>(QueryView::Success)
    }

    /// Deletes every key.  Never fails.
    pub fn flushdb(&mut self) -> (r: Result<SuccessQuery, DataBaseError>)
        requires
            old(self).wf(),
        ensures
            Database::flushdb_post(*old(self), *final(self), r),
    {
        self.dictionary.clear();
        Ok(SuccessQuery::Success)
    }

    /// What `dbsize` gives and, where it changes the database, the state it
    /// leaves, from the state `pre` it finds.
    pub open spec fn dbsize_post(pre: Database, r: Result<SuccessQuery, DataBaseError>) -> bool {
        &&& result_view(r) == Ok::<QueryView, DataBaseError>(
            QueryView::Integer(pre.dict().dom().len() as i32),
        )
    }

    /// The number of keys.  Never fails.
    pub fn dbsize(&self) -> (r: Result<SuccessQuery, DataBaseError>)
        requires
            self.wf(),
        ensures
            Database::dbsize_post(*self, r),
    {
        Ok(SuccessQuery::Integer(self.dictionary.len() as i32))
    }

    /// What `del` gives and, where it changes the database, the state it
    /// leaves, from the state `pre` it finds.
    pub open spec fn del_post(pre: Database, post: Database, key: &str, r: Result<SuccessQuery, DataBaseError>) -> bool {
        &&& post.wf()
        &&& post.now() == pre.now()
        &&& post.dump_path() == pre.dump_path()
        &&& post.dict() == pre.dict().remove(key@)
        &&& post.ttls() == pre.ttls().remove(key@)
        &&& result_view(r) == Ok::<QueryView, DataBaseError>(QueryView::Success)
    }

    /// Removes `key` and its timeout; a key that does not exist is ignored.
    pub fn del(&mut self, key: &str) -> (r: Result<SuccessQuery, DataBaseError>)
        requires
            old(self).wf(),
        ensures
            Database::del_post(*old(self), *final(self), key, r),
    {
        self.dictionary.remove(key);
        self.ttl_supervisor_run(MessageTtl::Clear(String::from_str(key)));
        Ok(SuccessQuery::Success)
    }

    /// What `exists_key` gives and, where it changes the database, the state it
    /// leaves, from the state `pre` it finds.
    pub open spec fn exists_key_post(pre: Database, post: Database, key: &str, r: Result<SuccessQuery, DataBaseError>) -> bool {
        &&& post.wf()
        &&& post.dump_path() == pre.dump_path()
        &&& post.ttls() == pre.ttls()
        &&& post.dict() == touched(pre.dict(), key@, post.now())
        &&& result_view(r) == Ok::<QueryView, DataBaseError>(
            QueryView::Boolean(
                key_live(pre.dict(), pre.ttls(), post.now(), key@),
            ),
        )
    }

    /// Whether `key` exists and has not expired; the key is marked as
    /// accessed.
    pub fn exists_key(&mut self, key: &str) -> (r: Result<SuccessQuery, DataBaseError>)
        requires
            old(self).wf(),
        ensures
            Database::exists_key_post(*old(self), *final(self), key, r),
    {
        self.tick();
        self.dictionary.touch(key, self.clock);
        Ok(SuccessQuery::Boolean(self._exists(key)))
    }

    /// What `copy` gives and, where it changes the database, the state it
    /// leaves, from the state `pre` it finds.
    pub open spec fn copy_post(pre: Database, post: Database, key: &str, to_key: &str, r: Result<SuccessQuery, DataBaseError>) -> bool {
        &&& post.wf()
        &&& post.dump_path() == pre.dump_path()
        &&& post.ttls() == pre.ttls()
        &&& ({
            let d = pre.dict();
            let t = pre.ttls();
            let now = post.now();
            if key_live(d, t, now, to_key@) {
                r == Err::<SuccessQuery, DataBaseError>(DataBaseError::KeyAlredyExist)
                    && post.dict() == d
            } else if !key_live(d, t, now, key@) {
                r == Err::<SuccessQuery, DataBaseError>(DataBaseError::NonExistentKey)
                    && post.dict() == d
            } else {
                result_view(r) == Ok::<QueryView, DataBaseError>(QueryView::Success)
                    && post.dict() == touched(d, key@, now).insert(
                    to_key@,
                    (d[key@].0, now),
                )
            }
        })
    }

    /// Copies the value of `key` to `to_key`.  Fails with `KeyAlredyExist`
    /// when `to_key` is live, else with `NonExistentKey` when `key` is not.
    pub fn copy(&mut self, key: &str, to_key: &str) -> (r: Result<SuccessQuery, DataBaseError>)
        requires
            old(self).wf(),
        ensures
            Database::copy_post(*old(self), *final(self), key, to_key, r),
    {
        self.tick();
        if self._exists(to_key) {
            return Err(DataBaseError::KeyAlredyExist);
        }
        if !self._exists(key) {
            return Err(DataBaseError::NonExistentKey);
        }
        self.dictionary.touch(key, self.clock);
        let val = match self.dictionary.get(key) {
            Some(slot) => slot.value.duplicate(),
            None => {
                return Err(DataBaseError::NonExistentKey);
            },
        };
        proof {
            self.dictionary.lemma_values_wf();
        }
        self.dictionary.insert(String::from_str(to_key), val, self.clock);
        Ok(SuccessQuery::Success)
    }

    // STRINGS

    /// `get` at the clock last read.
    fn get_at(&mut self, key: &str) -> (r: Result<SuccessQuery, DataBaseError>)
        requires
            old(self).wf(),
        ensures
            final(self).wf(),
            final(self).now() == old(self).now(),
            final(self).dump_path() == old(self).dump_path(),
            final(self).ttls() == old(self).ttls(),
            final(self).dict() == get_dict(old(self).dict(), old(self).ttls(), old(self).now(), key@),
            result_view(r) == get_reply(old(self).dict(), old(self).ttls(), old(self).now(), key@),
    {
        if !self._exists(key) {
            return Ok(SuccessQuery::Nil);
        }
        self.dictionary.touch(key, self.clock);
        match self.dictionary.get(key) {
            Some(slot) => match &slot.value {
                StorageValue::String(val) => Ok(SuccessQuery::String(val.clone())),
                _ => Err(DataBaseError::NotAString),
            },
            None => Ok(SuccessQuery::Nil),
        }
    }

    /// What `get` gives and, where it changes the database, the state it
    /// leaves, from the state `pre` it finds.
    pub open spec fn get_post(pre: Database, post: Database, key: &str, r: Result<SuccessQuery, DataBaseError>) -> bool {
        &&& post.wf()
        &&& post.dump_path() == pre.dump_path()
        &&& post.ttls() == pre.ttls()
        &&& post.dict() == get_dict(
            pre.dict(),
            pre.ttls(),
            post.now(),
            key@,
        )
        &&& result_view(r) == get_reply(pre.dict(), pre.ttls(), post.now(), key@)
    }

    /// The string value of `key`: `Nil` when the key is not live, an error
    /// when it does not hold a string.  A live key is marked as accessed.
    pub fn get(&mut self, key: &str) -> (r: Result<SuccessQuery, DataBaseError>)
        requires
            old(self).wf(),
        ensures
            Database::get_post(*old(self), *final(self), key, r),
    {
        self.tick();
        self.get_at(key)
    }

    /// `set` at the clock last read.
    fn set_at(&mut self, key: &str, val: &str)
        requires
            old(self).wf(),
        ensures
            final(self).wf(),
            final(self).now() == old(self).now(),
            final(self).dump_path() == old(self).dump_path(),
            final(self).ttls() == old(self).ttls().remove(key@),
            final(self).dict() == old(self).dict().insert(
                key@,
                (ValueView::Str(val@), old(self).now()),
            ),
    {
        self.ttl_supervisor_run(MessageTtl::Clear(String::from_str(key)));
        self.dictionary.insert(
            String::from_str(key),
            StorageValue::String(String::from_str(val)),
            self.clock,
        );
    }

    /// What `set` gives and, where it changes the database, the state it
    /// leaves, from the state `pre` it finds.
    pub open spec fn set_post(pre: Database, post: Database, key: &str, val: &str, r: Result<SuccessQuery, DataBaseError>) -> bool {
        &&& post.wf()
        &&& post.dump_path() == pre.dump_path()
        &&& post.ttls() == pre.ttls().remove(key@)
        &&& post.dict() == pre.dict().insert(
            key@,
            (ValueView::Str(val@), post.now()),
        )
        &&& result_view(r) == Ok::<QueryView, DataBaseError>(QueryView::Success)
    }

    /// Sets `key` to the string `val`, whatever it held, and drops its
    /// expiry time.  Never fails.
    pub fn set(&mut self, key: &str, val: &str) -> (r: Result<SuccessQuery, DataBaseError>)
        requires
            old(self).wf(),
        ensures
            Database::set_post(*old(self), *final(self), key, val, r),
    {
        self.tick();
        self.set_at(key, val);
        Ok(SuccessQuery::Success)
    }

    /// What `append` gives and, where it changes the database, the state it
    /// leaves, from the state `pre` it finds.
    pub open spec fn append_post(pre: Database, post: Database, key: &str, value: &str, r: Result<SuccessQuery, DataBaseError>) -> bool {
        &&& post.wf()
        &&& post.dump_path() == pre.dump_path()
        &&& post.ttls() == pre.ttls()
        &&& ({
            let d = pre.dict();
            let now = post.now();
            if key_live(d, pre.ttls(), now, key@) {
                match d[key@].0 {
                    ValueView::Str(s) => result_view(r) == Ok::<QueryView, DataBaseError>(
                        QueryView::Integer(str_bytes(s + value@) as i32),
                    ) && post.dict() == d.insert(
                        key@,
                        (ValueView::Str(s + value@), now),
                    ),
                    _ => r == Err::<SuccessQuery, DataBaseError>(DataBaseError::NotAString)
                        && post.dict() == d,
                }
            } else {
                result_view(r) == Ok::<QueryView, DataBaseError>(
                    QueryView::Integer(str_bytes(value@) as i32),
                ) && post.dict() == d.insert(key@, (ValueView::Str(value@), now))
            }
        })
    }

    /// Appends `value` to the string of `key` and gives the new length in
    /// bytes; a key that is not live is set to `value`.  Fails when the key
    /// holds a list or a set.
    pub fn append(&mut self, key: &str, value: &str) -> (r: Result<SuccessQuery, DataBaseError>)
        requires
            old(self).wf(),
        ensures
            Database::append_post(*old(self), *final(self), key, value, r),
    {
        self.tick();
        if self._exists(key) {
            let nv = match self.dictionary.get(key) {
                Some(slot) => match &slot.value {
                    StorageValue::String(val) => {
                        let mut nv = val.clone();
                        nv.append(value);
                        nv
                    },
                    _ => {
                        return Err(DataBaseError::NotAString);
                    },
                },
                None => {
                    return Err(DataBaseError::NotAString);
                },
            };
            let len_result = nv.as_str().len() as i32;
            self.dictionary.insert(String::from_str(key), StorageValue::String(nv), self.clock);
            Ok(SuccessQuery::Integer(len_result))
        } else {
            let len_result = value.len() as i32;
            self.dictionary.insert(
                String::from_str(key),
                StorageValue::String(String::from_str(value)),
                self.clock,
            );
            Ok(SuccessQuery::Integer(len_result))
        }
    }

    /// What `strlen` gives and, where it changes the database, the state it
    /// leaves, from the state `pre` it finds.
    pub open spec fn strlen_post(pre: Database, post: Database, key: &str, r: Result<SuccessQuery, DataBaseError>) -> bool {
        &&& post.wf()
        &&& post.dump_path() == pre.dump_path()
        &&& post.ttls() == pre.ttls()
        &&& post.dict() == get_dict(
            pre.dict(),
            pre.ttls(),
            post.now(),
            key@,
        )
        &&& result_view(r) == match get_reply(
            pre.dict(),
            pre.ttls(),
            post.now(),
            key@,
        ) {
            Ok(QueryView::Str(s)) => Ok(QueryView::Integer(str_bytes(s) as i32)),
            Ok(_) => Ok(QueryView::Integer(0)),
            Err(e) => Err(e),
        }
    }

    /// The length in bytes of the string of `key`, zero when the key is not
    /// live; an error when it holds a list or a set.
    pub fn strlen(&mut self, key: &str) -> (r: Result<SuccessQuery, DataBaseError>)
        requires
            old(self).wf(),
        ensures
            Database::strlen_post(*old(self), *final(self), key, r),
    {
        self.tick();
        match self.get_at(key) {
            Ok(SuccessQuery::String(val)) => Ok(SuccessQuery::Integer(val.as_str().len() as i32)),
            Ok(_) => Ok(SuccessQuery::Integer(0)),
            Err(e) => Err(e),
        }
    }

    /// What `getdel` gives and, where it changes the database, the state it
    /// leaves, from the state `pre` it finds.
    pub open spec fn getdel_post(pre: Database, post: Database, key: &str, r: Result<SuccessQuery, DataBaseError>) -> bool {
        &&& post.wf()
        &&& post.dump_path() == pre.dump_path()
        &&& ({
            let t = pre.ttls();
            let d1 = get_dict(pre.dict(), t, post.now(), key@);
            let rep = get_reply(pre.dict(), t, post.now(), key@);
            let deleted = rep is Ok && rep->Ok_0 is Str;
            &&& result_view(r) == rep
            &&& post.dict() == (if deleted {
                d1.remove(key@)
            } else {
                d1
            })
            &&& post.ttls() == (if deleted {
                t.remove(key@)
            } else {
                t
            })
        })
    }

    /// The string of `key`, which is then removed with its timeout; `Nil`
    /// when the key is not live, an error when it holds a list or a set.
    /// Only a removed key loses its timeout.
    pub fn getdel(&mut self, key: &str) -> (r: Result<SuccessQuery, DataBaseError>)
        requires
            old(self).wf(),
        ensures
            Database::getdel_post(*old(self), *final(self), key, r),
    {
        self.tick();
        match self.get_at(key) {
            Ok(SuccessQuery::String(val)) => {
                self.dictionary.remove(key);
                self.ttl_supervisor_run(MessageTtl::Clear(String::from_str(key)));
                Ok(SuccessQuery::String(val))
            },
            other => other,
        }
    }

    /// What `getset` gives and, where it changes the database, the state it
    /// leaves, from the state `pre` it finds.
    pub open spec fn getset_post(pre: Database, post: Database, key: &str, new_val: &str, r: Result<SuccessQuery, DataBaseError>) -> bool {
        &&& post.wf()
        &&& post.dump_path() == pre.dump_path()
        &&& ({
            let d = pre.dict();
            let t = pre.ttls();
            let now = post.now();
            let rep = get_reply(d, t, now, key@);
            if rep is Ok {
                &&& result_view(r) == rep
                &&& post.dict() == get_dict(d, t, now, key@).insert(
                    key@,
                    (ValueView::Str(new_val@), now),
                )
                &&& post.ttls() == t.remove(key@)
            } else {
                &&& r == Err::<SuccessQuery, DataBaseError>(DataBaseError::NotAString)
                &&& post.dict() == get_dict(d, t, now, key@)
                &&& post.ttls() == t
            }
        })
    }

    /// Sets `key` to the string `new_val` and gives the string it held, or
    /// `Nil` when it did not exist; the expiry time is dropped.  When the key
    /// holds a list or a set nothing changes and `NotAString` is returned.
    pub fn getset(&mut self, key: &str, new_val: &str) -> (r: Result<SuccessQuery, DataBaseError>)
        requires
            old(self).wf(),
        ensures
            Database::getset_post(*old(self), *final(self), key, new_val, r),
    {
        self.tick();
        let old_value = self.get_at(key);
        match old_value {
            Ok(q) => {
                self.set_at(key, new_val);
                Ok(q)
            },
            Err(e) => Err(e),
        }
    }

    /// What `decrby` gives and, where it changes the database, the state it
    /// leaves, from the state `pre` it finds.
    pub open spec fn decrby_post(pre: Database, post: Database, key: &str, decr: i32, r: Result<SuccessQuery, DataBaseError>) -> bool {
        &&& post.wf()
        &&& post.dump_path() == pre.dump_path()
        &&& post.ttls() == pre.ttls()
        &&& ({
            let d1 = decr_base(pre.dict(), pre.ttls(), post.now(), key@);
            &&& result_view(r) == decrby_reply(d1, key@, decr as int)
            &&& post.dict() == decrby_dict(d1, key@, decr as int, post.now())
        })
    }

    /// Subtracts `decr` from the integer that the string of `key` holds and
    /// stores the difference; a key that is not live is first set to `0`.
    /// Fails with `NotAnInteger` when the string is not an `i32` or the
    /// difference is not one, with `NotAString` when the key holds a list or
    /// a set.
    pub fn decrby(&mut self, key: &str, decr: i32) -> (r: Result<SuccessQuery, DataBaseError>)
        requires
            old(self).wf(),
        ensures
            Database::decrby_post(*old(self), *final(self), key, decr, r),
    {
        self.change_by(key, decr as i64)
    }

    /// `decrby` of an amount between `-2^31` and `2^31`.
    fn change_by(&mut self, key: &str, decr: i64) -> (r: Result<SuccessQuery, DataBaseError>)
        requires
            old(self).wf(),
            i32::MIN <= decr <= -(i32::MIN as int),
        ensures
            final(self).wf(),
            final(self).dump_path() == old(self).dump_path(),
            final(self).ttls() == old(self).ttls(),
            ({
                let d1 = decr_base(old(self).dict(), old(self).ttls(), final(self).now(), key@);
                &&& result_view(r) == decrby_reply(d1, key@, decr as int)
                &&& final(self).dict() == decrby_dict(d1, key@, decr as int, final(self).now())
            }),
    {
        self.tick();
        let was_live = self._exists(key);
        if !was_live {
            self.dictionary.insert(
                String::from_str(key),
                StorageValue::String(String::from_str("0")),
                self.clock,
            );
        }
        let s = match self.dictionary.get(key) {
            Some(slot) => match &slot.value {
                StorageValue::String(v) => v.clone(),
                _ => {
                    return Err(DataBaseError::NotAString);
                },
            },
            None => {
                return Err(DataBaseError::NotAString);
            },
        };
        match parse_i32(s.as_str()) {
            None => Err(DataBaseError::NotAnInteger),
            Some(n) => {
                proof {
                    if !was_live {
                        reveal_strlit("0");
                        assert("0"@ =~= seq!['0']);
                        assert(seq!['0'].drop_last() =~= Seq::<char>::empty());
                        assert(s@ == "0"@);
                        assert(all_digits(seq!['0']));
                        assert(digits_value(Seq::<char>::empty()) == 0);
                        assert(seq!['0'].last() == '0');
                        assert(digits_value(seq!['0']) == digits_value(seq!['0'].drop_last()) * 10
                            + digit_val('0'));
                        assert(digits_value(seq!['0']) == 0);
                        assert(spec_parse_i32(s@) == Some(0i32));
                    }
                }
                let wide: i64 = n as i64 - decr;
                if wide < i32::MIN as i64 || wide > i32::MAX as i64 {
                    return Err(DataBaseError::NotAnInteger);
                }
                let val = wide as i32;
                self.dictionary.insert(
                    String::from_str(key),
                    StorageValue::String(int_to_string(val as i128)),
                    self.clock,
                );
                Ok(SuccessQuery::Integer(val))
            },
        }
    }

    /// What `incrby` gives and, where it changes the database, the state it
    /// leaves, from the state `pre` it finds.
    pub open spec fn incrby_post(pre: Database, post: Database, key: &str, incr: i32, r: Result<SuccessQuery, DataBaseError>) -> bool {
        &&& post.wf()
        &&& post.dump_path() == pre.dump_path()
        &&& post.ttls() == pre.ttls()
        &&& ({
            let d1 = decr_base(pre.dict(), pre.ttls(), post.now(), key@);
            &&& result_view(r) == decrby_reply(d1, key@, -(incr as int))
            &&& post.dict() == decrby_dict(d1, key@, -(incr as int), post.now())
        })
    }

    /// Adds `incr` to the integer that the string of `key` holds, as
    /// `decrby` of `-incr`.
    pub fn incrby(&mut self, key: &str, incr: i32) -> (r: Result<SuccessQuery, DataBaseError>)
        requires
            old(self).wf(),
        ensures
            Database::incrby_post(*old(self), *final(self), key, incr, r),
    {
        self.change_by(key, -(incr as i64))
    }

    /// What `mget` gives and, where it changes the database, the state it
    /// leaves, from the state `pre` it finds.
    pub open spec fn mget_post(pre: Database, post: Database, params: Vec<&str>, r: Result<SuccessQuery, DataBaseError>) -> bool {
        &&& post.wf()
        &&& post.dump_path() == pre.dump_path()
        &&& post.ttls() == pre.ttls()
        &&& post.dict() == mget_dict(
            pre.dict(),
            pre.ttls(),
            post.now(),
            strs_view(params@),
        )
        &&& result_view(r) == Ok::<QueryView, DataBaseError>(
            QueryView::List(
                strs_view(params@).map_values(
                    |k: Seq<char>|
                        mget_item(pre.dict(), pre.ttls(), post.now(), k),
                ),
            ),
        )
    }

    /// The string of each key in turn, `Nil` for a key that is not live or
    /// does not hold a string.  Never fails.
    pub fn mget(&mut self, params: Vec<&str>) -> (r: Result<SuccessQuery, DataBaseError>)
        requires
            old(self).wf(),
        ensures
            Database::mget_post(*old(self), *final(self), params, r),
    {
        self.tick();
        let ghost d = self.dict();
        let ghost t = self.ttls();
        let ghost now = self.now();
        let ghost ks = strs_view(params@);
        let mut list: Vec<SuccessQuery> = Vec::new();
        let mut i: usize = 0;
        proof {
            assert(mget_dict(d, t, now, ks.take(0)) =~= d);
        }
        while i < params.len()
            invariant
                self.wf(),
                i <= params@.len(),
                ks == strs_view(params@),
                self.now() == now,
                self.ttls() == t,
                self.dump_path() == old(self).dump_path(),
                d.dom() == old(self).dict().dom(),
                self.dict() == mget_dict(d, t, now, ks.take(i as int)),
                list@.len() == i,
                forall|j: int|
                    0 <= j < i ==> (#[trigger] list@[j])@ == mget_item(d, t, now, ks[j]),
            decreases params.len() - i,
        {
            let key = params[i];
            let ghost di = self.dict();
            let res = self.get_at(key);
            proof {
                assert(key@ == ks[i as int]);
                assert(get_reply(di, t, now, key@) == get_reply(d, t, now, key@));
                assert(self.dict() =~= mget_dict(d, t, now, ks.take(i + 1))) by {
                    assert forall|k: Seq<char>| ks.take(i + 1).contains(k) <==> (ks.take(
                        i as int,
                    ).contains(k) || k == key@) by {
                        let t1 = ks.take(i + 1);
                        let t0 = ks.take(i as int);
                        if t1.contains(k) {
                            let p = choose|p: int| 0 <= p < i + 1 && #[trigger] t1[p] == k;
                            if p < i {
                                assert(t0[p] == k);
                            }
                        }
                        if t0.contains(k) {
                            let p = choose|p: int| 0 <= p < i && #[trigger] t0[p] == k;
                            assert(t1[p] == k);
                        }
                        if k == key@ {
                            assert(ks.take(i + 1)[i as int] == k);
                        }
                    }
                }
            }
            match res {
                Err(_) => {
                    list.push(SuccessQuery::Nil);
                },
                Ok(q) => {
                    list.push(q);
                },
            }
            i = i + 1;
        }
        proof {
            assert(ks.take(i as int) =~= ks);
            let items = ks.map_values(|k: Seq<char>| mget_item(d, t, now, k));
            assert(list_view(list@) =~= items);
            lemma_list_view(list);
        }
        Ok(SuccessQuery::List(list))
    }

    /// What `mset` gives and, where it changes the database, the state it
    /// leaves, from the state `pre` it finds.
    pub open spec fn mset_post(pre: Database, post: Database, params: Vec<&str>, r: Result<SuccessQuery, DataBaseError>) -> bool {
        &&& post.wf()
        &&& post.dump_path() == pre.dump_path()
        &&& post.dict() == mset_dict(
            pre.dict(),
            strs_view(params@),
            (params@.len() / 2) as nat,
            post.now(),
        )
        &&& post.ttls() == mset_ttls(
            pre.ttls(),
            strs_view(params@),
            (params@.len() / 2) as nat,
        )
        &&& result_view(r) == Ok::<QueryView, DataBaseError>(QueryView::Success)
    }

    /// Sets each key of `params` (at the even positions) to the string that
    /// follows it, in order, as `set` does.  Never fails.
    pub fn mset(&mut self, params: Vec<&str>) -> (r: Result<SuccessQuery, DataBaseError>)
        requires
            old(self).wf(),
            params@.len() % 2 == 0,
        ensures
            Database::mset_post(*old(self), *final(self), params, r),
    {
        self.tick();
        let ghost ps = strs_view(params@);
        let mut i: usize = 0;
        while i < params.len()
            invariant
                self.wf(),
                i <= params@.len(),
                i % 2 == 0,
                params@.len() % 2 == 0,
                ps == strs_view(params@),
                self.dump_path() == old(self).dump_path(),
                self.dict() == mset_dict(old(self).dict(), ps, (i / 2) as nat, self.now()),
                self.ttls() == mset_ttls(old(self).ttls(), ps, (i / 2) as nat),
            decreases params.len() - i,
        {
            let key = params[i];
            let value = params[i + 1];
            self.set_at(key, value);
            i = i + 2;
            proof {
                assert((i / 2) as nat - 1 == ((i - 2) / 2) as nat);
                assert(2 * ((i / 2) as nat) - 2 == i - 2);
            }
        }
        Ok(SuccessQuery::Success)
    }

    /// What `persist` gives and, where it changes the database, the state it
    /// leaves, from the state `pre` it finds.
    pub open spec fn persist_post(pre: Database, post: Database, key: &str, r: Result<SuccessQuery, DataBaseError>) -> bool {
        &&& post.wf()
        &&& post.dump_path() == pre.dump_path()
        &&& if key_live(pre.dict(), pre.ttls(), post.now(), key@) {
            &&& result_view(r) == Ok::<QueryView, DataBaseError>(
                QueryView::Boolean(pre.ttls().contains_key(key@)),
            )
            &&& post.dict() == touched(pre.dict(), key@, post.now())
            &&& post.ttls() == pre.ttls().remove(key@)
        } else {
            &&& result_view(r) == Ok::<QueryView, DataBaseError>(QueryView::Boolean(false))
            &&& post.dict() == pre.dict()
            &&& post.ttls() == pre.ttls()
        }
    }

    /// Makes a live key persistent again: `1` when a timeout was removed,
    /// `0` when the key is not live or has no timeout.
    pub fn persist(&mut self, key: &str) -> (r: Result<SuccessQuery, DataBaseError>)
        requires
            old(self).wf(),
        ensures
            Database::persist_post(*old(self), *final(self), key, r),
    {
        self.tick();
        if !self._exists(key) {
            return Ok(SuccessQuery::Boolean(false));
        }
        self.dictionary.touch(key, self.clock);
        let had_timeout = self.ttl.get(key).is_some();
        self.ttl_supervisor_run(MessageTtl::Clear(String::from_str(key)));
        Ok(SuccessQuery::Boolean(had_timeout))
    }

    /// What `expire` gives and, where it changes the database, the state it
    /// leaves, from the state `pre` it finds.
    pub open spec fn expire_post(pre: Database, post: Database, key: &str, seconds: i64, r: Result<SuccessQuery, DataBaseError>) -> bool {
        &&& post.wf()
        &&& post.dump_path() == pre.dump_path()
        &&& ({
            let d = pre.dict();
            let t = pre.ttls();
            let now = post.now();
            if !key_live(d, t, now, key@) {
                &&& result_view(r) == Ok::<QueryView, DataBaseError>(QueryView::Boolean(false))
                &&& post.dict() == d
                &&& post.ttls() == t
            } else if seconds < 0 {
                &&& result_view(r) == Ok::<QueryView, DataBaseError>(QueryView::Boolean(true))
                &&& post.dict() == d.remove(key@)
                &&& post.ttls() == t
            } else {
                &&& result_view(r) == Ok::<QueryView, DataBaseError>(QueryView::Boolean(true))
                &&& post.dict() == touched(d, key@, now)
                &&& post.ttls() == t.insert(
                    key@,
                    if now + seconds > u64::MAX {
                        u64::MAX
                    } else {
                        (now + seconds) as u64
                    },
                )
            }
        })
    }

    /// Lets a live key expire `seconds` from now; a negative `seconds`
    /// removes the key at once.  `Boolean(false)` when the key is not live.
    pub fn expire(&mut self, key: &str, seconds: i64) -> (r: Result<SuccessQuery, DataBaseError>)
        requires
            old(self).wf(),
        ensures
            Database::expire_post(*old(self), *final(self), key, seconds, r),
    {
        self.tick();
        if !self._exists(key) {
            return Ok(SuccessQuery::Boolean(false));
        }
        self.dictionary.touch(key, self.clock);
        if seconds < 0 {
            self.dictionary.remove(key);
            proof {
                assert(self.dict() =~= old(self).dict().remove(key@));
            }
        } else {
            let expire_time = self.clock.saturating_add(seconds as u64);
            self.ttl_supervisor_run(MessageTtl::Expire(KeyTtl::new(key, expire_time)));
        }
        Ok(SuccessQuery::Boolean(true))
    }

    /// What `expireat` gives and, where it changes the database, the state it
    /// leaves, from the state `pre` it finds.
    pub open spec fn expireat_post(pre: Database, post: Database, key: &str, seconds: i64, r: Result<SuccessQuery, DataBaseError>) -> bool {
        &&& post.wf()
        &&& post.dump_path() == pre.dump_path()
        &&& ({
            let d = pre.dict();
            let t = pre.ttls();
            let now = post.now();
            if !key_live(d, t, now, key@) {
                &&& result_view(r) == Ok::<QueryView, DataBaseError>(QueryView::Boolean(false))
                &&& post.dict() == d
                &&& post.ttls() == t
            } else if seconds <= now {
                &&& result_view(r) == Ok::<QueryView, DataBaseError>(QueryView::Boolean(true))
                &&& post.dict() == d.remove(key@)
                &&& post.ttls() == t
            } else {
                &&& result_view(r) == Ok::<QueryView, DataBaseError>(QueryView::Boolean(true))
                &&& post.dict() == touched(d, key@, now)
                &&& post.ttls() == t.insert(key@, seconds as u64)
            }
        })
    }

    /// Lets a live key expire at the Unix time `seconds`; a time already
    /// past removes the key at once.  `Boolean(false)` when the key is not
    /// live.
    pub fn expireat(&mut self, key: &str, seconds: i64) -> (r: Result<SuccessQuery, DataBaseError>)
        requires
            old(self).wf(),
        ensures
            Database::expireat_post(*old(self), *final(self), key, seconds, r),
    {
        self.tick();
        let done = self.expireat_at(key, seconds);
        Ok(SuccessQuery::Boolean(done))
    }

    /// `expireat` at the clock last read (see `expireat_step`).
    fn expireat_at(&mut self, key: &str, seconds: i64) -> (r: bool)
        requires
            old(self).wf(),
        ensures
            final(self).wf(),
            final(self).now() == old(self).now(),
            final(self).dump_path() == old(self).dump_path(),
            (final(self).dict(), final(self).ttls(), r) == expireat_step(
                old(self).dict(),
                old(self).ttls(),
                old(self).now(),
                key@,
                seconds,
            ),
    {
        if !self._exists(key) {
            return false;
        }
        self.dictionary.touch(key, self.clock);
        if seconds < 0 || (seconds as u64) <= self.clock {
            self.dictionary.remove(key);
            proof {
                assert(self.dict() =~= old(self).dict().remove(key@));
            }
        } else {
            self.ttl_supervisor_run(MessageTtl::Expire(KeyTtl::new(key, seconds as u64)));
        }
        true
    }

    /// What `rename` gives and, where it changes the database, the state it
    /// leaves, from the state `pre` it finds.
    pub open spec fn rename_post(pre: Database, post: Database, old_key: &str, new_key: &str, r: Result<SuccessQuery, DataBaseError,>) -> bool {
        &&& post.wf()
        &&& post.dump_path() == pre.dump_path()
        &&& ({
            let d = pre.dict();
            let t = pre.ttls();
            let now = post.now();
            if !key_live(d, t, now, old_key@) {
                &&& r == Err::<SuccessQuery, DataBaseError>(DataBaseError::NonExistentKey)
                &&& post.dict() == d
                &&& post.ttls() == t
            } else {
                &&& result_view(r) == Ok::<QueryView, DataBaseError>(QueryView::Success)
                &&& post.dict() == d.remove(old_key@).insert(
                    new_key@,
                    (d[old_key@].0, now),
                )
                &&& post.ttls() == transferred(t, old_key@, new_key@)
            }
        })
    }

    /// Renames a live key, overwriting `new_key`; the expiry time moves with
    /// it.  Fails with `NonExistentKey` when `old_key` is not live.
    pub fn rename(&mut self, old_key: &str, new_key: &str) -> (r: Result<
        SuccessQuery,
        DataBaseError,
    >)
        requires
            old(self).wf(),
        ensures
            Database::rename_post(*old(self), *final(self), old_key, new_key, r),
    {
        self.tick();
        if !self._exists(old_key) {
            return Err(DataBaseError::NonExistentKey);
        }
        proof {
            self.dictionary.lemma_values_wf();
        }
        match self.dictionary.remove(old_key) {
            Some(value) => {
                self.dictionary.insert(String::from_str(new_key), value, self.clock);
                self.ttl_supervisor_run(
                    MessageTtl::Transfer(String::from_str(old_key), String::from_str(new_key)),
                );
                Ok(SuccessQuery::Success)
            },
            None => Err(DataBaseError::NonExistentKey),
        }
    }

    /// What `ttl` gives and, where it changes the database, the state it
    /// leaves, from the state `pre` it finds.
    pub open spec fn ttl_post(pre: Database, post: Database, key: &str, r: Result<SuccessQuery, DataBaseError>) -> bool {
        &&& post.wf()
        &&& post.dump_path() == pre.dump_path()
        &&& post.dict() == pre.dict()
        &&& post.ttls() == pre.ttls()
        &&& result_view(r) == Ok::<QueryView, DataBaseError>(
            if !key_live(pre.dict(), pre.ttls(), post.now(), key@) {
                QueryView::Integer(-2i32)
            } else if pre.ttls().contains_key(key@) {
                QueryView::Integer((pre.ttls()[key@] - post.now() - 1) as i32)
            } else {
                QueryView::Integer(-1i32)
            },
        )
    }

    /// The whole seconds left before a live key expires (its expiry second
    /// not counted), `-1` when it does not expire, `-2` when it is not live.
    pub fn ttl(&mut self, key: &str) -> (r: Result<SuccessQuery, DataBaseError>)
        requires
            old(self).wf(),
        ensures
            Database::ttl_post(*old(self), *final(self), key, r),
    {
        self.tick();
        if !self._exists(key) {
            return Ok(SuccessQuery::Integer(-2));
        }
        match self.ttl_supervisor_run(MessageTtl::Ttl(String::from_str(key))) {
            Some(RespondTtl::Ttl(time)) => Ok(SuccessQuery::Integer((time - self.clock - 1) as i32)),
            _ => Ok(SuccessQuery::Integer(-1)),
        }
    }

    /// What `get_type` gives and, where it changes the database, the state it
    /// leaves, from the state `pre` it finds.
    pub open spec fn get_type_post(pre: Database, post: Database, key: &str, r: Result<SuccessQuery, DataBaseError>) -> bool {
        &&& post.wf()
        &&& post.dump_path() == pre.dump_path()
        &&& post.ttls() == pre.ttls()
        &&& post.dict() == get_dict(
            pre.dict(),
            pre.ttls(),
            post.now(),
            key@,
        )
        &&& result_view(r) == Ok::<QueryView, DataBaseError>(
            if key_live(pre.dict(), pre.ttls(), post.now(), key@) {
                QueryView::Str(value_type_word(pre.dict()[key@].0))
            } else {
                QueryView::Str("none"@)
            },
        )
    }

    /// The type of value of a live key (`string`, `list` or `set`), `none`
    /// when the key is not live.  A live key is marked as accessed.
    pub fn get_type(&mut self, key: &str) -> (r: Result<SuccessQuery, DataBaseError>)
        requires
            old(self).wf(),
        ensures
            Database::get_type_post(*old(self), *final(self), key, r),
    {
        self.tick();
        if !self._exists(key) {
            return Ok(SuccessQuery::String(String::from_str("none")));
        }
        self.dictionary.touch(key, self.clock);
        match self.dictionary.get(key) {
            Some(slot) => Ok(
                SuccessQuery::String(
                    match &slot.value {
                        StorageValue::String(_) => String::from_str("string"),
                        StorageValue::List(_) => String::from_str("list"),
                        StorageValue::StringSet(_) => String::from_str("set"),
                    },
                ),
            ),
            None => Ok(SuccessQuery::String(String::from_str("none"))),
        }
    }

    /// Removes `key` if its expiry time has come; then, if the key is
    /// there, marks it as accessed and gives the seconds since its previous
    /// access.
    pub fn touch(&mut self, key: &str) -> (r: Option<u64>)
        requires
            old(self).wf(),
        ensures
            final(self).wf(),
            final(self).dump_path() == old(self).dump_path(),
            ({
                let d = old(self).dict();
                let t = old(self).ttls();
                let now = final(self).now();
                let d1 = if due(t, now, key@) {
                    d.remove(key@)
                } else {
                    d
                };
                let t1 = if due(t, now, key@) {
                    t.remove(key@)
                } else {
                    t
                };
                &&& final(self).ttls() == t1
                &&& final(self).dict() == touched(d1, key@, now)
                &&& r == (if d1.contains_key(key@) {
                    Some(
                        if now >= d1[key@].1 {
                            (now - d1[key@].1) as u64
                        } else {
                            0
                        },
                    )
                } else {
                    None
                })
            }),
    {
        self.tick();
        self.ttl_supervisor_run(MessageTtl::Check(String::from_str(key)));
        match self.dictionary.touch(key, self.clock) {
            Some(t) => {
                self.ttl_supervisor_run(MessageTtl::Check(String::from_str(key)));
                Some(t)
            },
            None => None,
        }
    }

    /// What `keys` gives and, where it changes the database, the state it
    /// leaves, from the state `pre` it finds.
    pub open spec fn keys_post(pre: Database, post: Database, pattern: &str, r: Result<SuccessQuery, DataBaseError>) -> bool {
        &&& post == pre
        &&& result_view(r) == Ok::<QueryView, DataBaseError>(
            strings_reply(keys_matching(pre.keys_seq(), pattern@)),
        )
    }

    /// The keys that match the glob `pattern`, in the order of `keys_seq`.
    /// Keys whose expiry time has come but that were not removed yet are
    /// listed too.  Never fails.
    pub fn keys(&mut self, pattern: &str) -> (r: Result<SuccessQuery, DataBaseError>)
        requires
            old(self).wf(),
        ensures
            Database::keys_post(*old(self), *final(self), pattern, r),
    {
        let keys = self.dictionary.keys();
        let ghost ks = strings_view(keys@);
        let mut list: Vec<SuccessQuery> = Vec::new();
        let ghost mut sel: Seq<Seq<char>> = Seq::empty();
        let mut i: usize = 0;
        while i < keys.len()
            invariant
                i <= keys@.len(),
                ks == strings_view(keys@),
                sel == keys_matching(ks.take(i as int), pattern@),
                list_view(list@) == sel.map_values(|x: Seq<char>| QueryView::Str(x)),
            decreases keys.len() - i,
        {
            let k = &keys[i];
            proof {
                assert(ks.take(i + 1).drop_last() =~= ks.take(i as int));
                assert(ks.take(i + 1).last() == k@);
            }
            let ghost l0 = list@;
            if matcher(k.as_str(), pattern) {
                list.push(SuccessQuery::String(k.clone()));
                proof {
                    assert(list_view(list@) =~= list_view(l0).push(QueryView::Str(k@)));
                    sel = sel.push(k@);
                }
            }
            i = i + 1;
            proof {
                assert(list_view(list@) =~= sel.map_values(|x: Seq<char>| QueryView::Str(x)));
            }
        }
        proof {
            assert(ks.take(i as int) =~= ks);
            lemma_list_view(list);
        }
        Ok(SuccessQuery::List(list))
    }

    /// Removes every key whose expiry time has come, with its expiry time,
    /// and tells whether no key is left to expire.
    pub fn executor(&mut self) -> (r: bool)
        requires
            old(self).wf(),
        ensures
            final(self).wf(),
            final(self).dump_path() == old(self).dump_path(),
            ({
                let d = old(self).dict();
                let t = old(self).ttls();
                let now = final(self).now();
                &&& final(self).dict() == Map::new(
                    |k: Seq<char>| d.contains_key(k) && !due(t, now, k),
                    |k: Seq<char>| d[k],
                )
                &&& final(self).ttls() == Map::new(
                    |k: Seq<char>| t.contains_key(k) && !due(t, now, k),
                    |k: Seq<char>| t[k],
                )
                &&& r == final(self).ttls().is_empty()
            }),
    {
        self.tick();
        let ghost d = self.dict();
        let ghost t = self.ttls();
        let ghost now = self.now();
        loop
            invariant
                self.wf(),
                self.now() == now,
                self.dump_path() == old(self).dump_path(),
                d == old(self).dict(),
                t == old(self).ttls(),
                forall|k: Seq<char>| #[trigger]
                    self.ttls().contains_key(k) ==> t.contains_key(k) && self.ttls()[k] == t[k],
                forall|k: Seq<char>|
                    t.contains_key(k) && !self.ttls().contains_key(k) ==> #[trigger] due(t, now, k),
                forall|k: Seq<char>| #[trigger]
                    self.dict().contains_key(k) <==> d.contains_key(k) && !(t.contains_key(k)
                        && !self.ttls().contains_key(k)),
                forall|k: Seq<char>| #[trigger]
                    self.dict().contains_key(k) ==> self.dict()[k] == d[k],
            ensures
                forall|k: Seq<char>| #[trigger]
                    self.ttls().contains_key(k) ==> !(self.ttls()[k] <= now),
            decreases self.ttl.size(),
        {
            let ghost t0 = self.ttls();
            let ghost d0 = self.dict();
            match self.ttl.pop_due(self.clock) {
                Some(e) => {
                    self.dictionary.remove(e.key.as_str());
                    proof {
                        assert forall|k: Seq<char>| #[trigger]
                            self.ttls().contains_key(k) implies t.contains_key(k) && self.ttls()[k]
                            == t[k] by {
                            assert(t0.contains_key(k));
                        }
                        assert forall|k: Seq<char>|
                            t.contains_key(k) && !self.ttls().contains_key(
                                k,
                            ) implies #[trigger] due(t, now, k) by {
                            if t0.contains_key(k) {
                                assert(k == e.key@);
                            }
                        }
                        assert forall|k: Seq<char>| #[trigger]
                            self.dict().contains_key(k) <==> d.contains_key(k) && !(t.contains_key(k)
                                && !self.ttls().contains_key(k)) by {
                            if k == e.key@ {
                                assert(t0.contains_key(k));
                            } else {
                                assert(self.dict().contains_key(k) == d0.contains_key(k));
                                assert(self.ttls().contains_key(k) == t0.contains_key(k));
                            }
                        }
                    }
                },
                None => {
                    proof {
                        assert(self.ttls() == t0);
                        assert(self.dict() == d0);
                    }
                    break ;
                },
            }
        }
        proof {
            assert(self.dict() =~= Map::new(
                |k: Seq<char>| d.contains_key(k) && !due(t, now, k),
                |k: Seq<char>| d[k],
            ));
            assert(self.ttls() =~= Map::new(
                |k: Seq<char>| t.contains_key(k) && !due(t, now, k),
                |k: Seq<char>| t[k],
            ));
        }
        self.ttl.is_empty()
    }

    // LISTS

    /// The list of a live key, copied, or the reason there is none.
    fn list_of(&self, key: &str) -> (r: Option<Vec<String>>)
        requires
            self.wf(),
            self.live(key@),
        ensures
            match r {
                Some(l) => self.dict()[key@].0 == ValueView::List(strings_view(l@)),
                None => !(self.dict()[key@].0 is List),
            },
    {
        match self.dictionary.get(key) {
            Some(slot) => match &slot.value {
                StorageValue::List(l) => Some(crate::databasehelper::copy_strings(l)),
                _ => None,
            },
            None => None,
        }
    }

    /// What `lindex` gives and, where it changes the database, the state it
    /// leaves, from the state `pre` it finds.
    pub open spec fn lindex_post(pre: Database, post: Database, key: &str, index: i32, r: Result<SuccessQuery, DataBaseError>) -> bool {
        &&& post.wf()
        &&& post.dump_path() == pre.dump_path()
        &&& post.ttls() == pre.ttls()
        &&& ({
            let d = pre.dict();
            let now = post.now();
            if !key_live(d, pre.ttls(), now, key@) {
                result_view(r) == Ok::<QueryView, DataBaseError>(QueryView::Nil)
                    && post.dict() == d
            } else {
                match d[key@].0 {
                    ValueView::List(l) => {
                        let p = list_pos(l.len(), index);
                        if 0 <= p < l.len() {
                            result_view(r) == Ok::<QueryView, DataBaseError>(
                                QueryView::Str(l[p]),
                            ) && post.dict() == touched(d, key@, now)
                        } else {
                            result_view(r) == Ok::<QueryView, DataBaseError>(QueryView::Nil)
                                && post.dict() == d
                        }
                    },
                    _ => r == Err::<SuccessQuery, DataBaseError>(DataBaseError::NotAList)
                        && post.dict() == d,
                }
            }
        })
    }

    /// The element at `index` of the list of `key`; a negative index counts
    /// from the end.  `Nil` when the key is not live or the index is out of
    /// range; an error when the key does not hold a list.  Reading an element
    /// marks the key as accessed.
    pub fn lindex(&mut self, key: &str, index: i32) -> (r: Result<SuccessQuery, DataBaseError>)
        requires
            old(self).wf(),
        ensures
            Database::lindex_post(*old(self), *final(self), key, index, r),
    {
        self.tick();
        if !self._exists(key) {
            return Ok(SuccessQuery::Nil);
        }
        match self.list_of(key) {
            Some(list) => {
                let len = (#[verifier::truncate] (list.len() as i32)) as i64;
                let p: i64 = if index < 0 {
                    len + index as i64
                } else {
                    index as i64
                };
                if 0 <= p && (p as usize) < list.len() {
                    let v = list[p as usize].clone();
                    self.dictionary.touch(key, self.clock);
                    Ok(SuccessQuery::String(v))
                } else {
                    Ok(SuccessQuery::Nil)
                }
            },
            None => Err(DataBaseError::NotAList),
        }
    }

    /// What `llen` gives and, where it changes the database, the state it
    /// leaves, from the state `pre` it finds.
    pub open spec fn llen_post(pre: Database, post: Database, key: &str, r: Result<SuccessQuery, DataBaseError>) -> bool {
        &&& post.wf()
        &&& post.dump_path() == pre.dump_path()
        &&& post.ttls() == pre.ttls()
        &&& ({
            let d = pre.dict();
            let now = post.now();
            if !key_live(d, pre.ttls(), now, key@) {
                result_view(r) == Ok::<QueryView, DataBaseError>(QueryView::Integer(0))
                    && post.dict() == d
            } else {
                match d[key@].0 {
                    ValueView::List(l) => result_view(r) == Ok::<QueryView, DataBaseError>(
                        QueryView::Integer(l.len() as i32),
                    ) && post.dict() == touched(d, key@, now),
                    _ => r == Err::<SuccessQuery, DataBaseError>(DataBaseError::NotAList)
                        && post.dict() == d,
                }
            }
        })
    }

    /// The length of the list of `key`, zero when the key is not live; an
    /// error when the key does not hold a list.
    pub fn llen(&mut self, key: &str) -> (r: Result<SuccessQuery, DataBaseError>)
        requires
            old(self).wf(),
        ensures
            Database::llen_post(*old(self), *final(self), key, r),
    {
        self.tick();
        if !self._exists(key) {
            return Ok(SuccessQuery::Integer(0));
        }
        match self.list_of(key) {
            Some(list) => {
                self.dictionary.touch(key, self.clock);
                Ok(SuccessQuery::Integer(list.len() as i32))
            },
            None => Err(DataBaseError::NotAList),
        }
    }

    /// Stores `list` at `key`, accessed now.
    fn store_list(&mut self, key: &str, list: Vec<String>)
        requires
            old(self).wf(),
        ensures
            final(self).wf(),
            final(self).now() == old(self).now(),
            final(self).dump_path() == old(self).dump_path(),
            final(self).ttls() == old(self).ttls(),
            final(self).dict() == old(self).dict().insert(
                key@,
                (ValueView::List(strings_view(list@)), old(self).now()),
            ),
    {
        self.dictionary.insert(String::from_str(key), StorageValue::List(list), self.clock);
    }

    /// What `lpop` gives and, where it changes the database, the state it
    /// leaves, from the state `pre` it finds.
    pub open spec fn lpop_post(pre: Database, post: Database, key: &str, r: Result<SuccessQuery, DataBaseError>) -> bool {
        &&& post.wf()
        &&& post.dump_path() == pre.dump_path()
        &&& post.ttls() == pre.ttls()
        &&& ({
            let d = pre.dict();
            let now = post.now();
            if !key_live(d, pre.ttls(), now, key@) {
                result_view(r) == Ok::<QueryView, DataBaseError>(QueryView::Nil)
                    && post.dict() == d
            } else {
                match d[key@].0 {
                    ValueView::List(l) => if l.len() == 0 {
                        result_view(r) == Ok::<QueryView, DataBaseError>(QueryView::Nil)
                            && post.dict() == touched(d, key@, now)
                    } else {
                        result_view(r) == Ok::<QueryView, DataBaseError>(QueryView::Str(l[0]))
                            && post.dict() == d.insert(
                            key@,
                            (ValueView::List(l.drop_first()), now),
                        )
                    },
                    _ => r == Err::<SuccessQuery, DataBaseError>(DataBaseError::NotAList)
                        && post.dict() == d,
                }
            }
        })
    }

    /// Removes and gives the first element of the list of `key`: `Nil` when
    /// the key is not live or the list is empty, an error when the key does
    /// not hold a list.
    pub fn lpop(&mut self, key: &str) -> (r: Result<SuccessQuery, DataBaseError>)
        requires
            old(self).wf(),
        ensures
            Database::lpop_post(*old(self), *final(self), key, r),
    {
        self.tick();
        if !self._exists(key) {
            return Ok(SuccessQuery::Nil);
        }
        match self.list_of(key) {
            Some(mut list) => {
                if list.len() == 0 {
                    self.dictionary.touch(key, self.clock);
                    Ok(SuccessQuery::Nil)
                } else {
                    let ghost l0 = list@;
                    let first = list.remove(0);
                    proof {
                        assert(strings_view(list@) =~= strings_view(l0).drop_first());
                    }
                    self.store_list(key, list);
                    Ok(SuccessQuery::String(first))
                }
            },
            None => Err(DataBaseError::NotAList),
        }
    }

    /// What `rpop` gives and, where it changes the database, the state it
    /// leaves, from the state `pre` it finds.
    pub open spec fn rpop_post(pre: Database, post: Database, key: &str, r: Result<SuccessQuery, DataBaseError>) -> bool {
        &&& post.wf()
        &&& post.dump_path() == pre.dump_path()
        &&& post.ttls() == pre.ttls()
        &&& ({
            let d = pre.dict();
            let now = post.now();
            if !key_live(d, pre.ttls(), now, key@) {
                result_view(r) == Ok::<QueryView, DataBaseError>(QueryView::Nil)
                    && post.dict() == d
            } else {
                match d[key@].0 {
                    ValueView::List(l) => if l.len() == 0 {
                        result_view(r) == Ok::<QueryView, DataBaseError>(QueryView::Nil)
                            && post.dict() == touched(d, key@, now)
                    } else {
                        result_view(r) == Ok::<QueryView, DataBaseError>(
                            QueryView::Str(l.last()),
                        ) && post.dict() == d.insert(
                            key@,
                            (ValueView::List(l.drop_last()), now),
                        )
                    },
                    _ => r == Err::<SuccessQuery, DataBaseError>(DataBaseError::NotAList)
                        && post.dict() == d,
                }
            }
        })
    }

    /// Removes and gives the last element of the list of `key`: `Nil` when
    /// the key is not live or the list is empty, an error when the key does
    /// not hold a list.
    pub fn rpop(&mut self, key: &str) -> (r: Result<SuccessQuery, DataBaseError>)
        requires
            old(self).wf(),
        ensures
            Database::rpop_post(*old(self), *final(self), key, r),
    {
        self.tick();
        if !self._exists(key) {
            return Ok(SuccessQuery::Nil);
        }
        match self.list_of(key) {
            Some(mut list) => {
                let ghost l0 = list@;
                match list.pop() {
                    Some(value) => {
                        proof {
                            assert(strings_view(list@) =~= strings_view(l0).drop_last());
                        }
                        self.store_list(key, list);
                        Ok(SuccessQuery::String(value))
                    },
                    None => {
                        self.dictionary.touch(key, self.clock);
                        Ok(SuccessQuery::Nil)
                    },
                }
            },
            None => Err(DataBaseError::NotAList),
        }
    }

    /// Puts `value` at the head of the list that `key` holds and gives the
    /// new length.
    fn prepend(&mut self, key: &str, value: &str) -> (n: usize)
        requires
            old(self).wf(),
            old(self).dict().contains_key(key@),
            old(self).dict()[key@].0 is List,
        ensures
            final(self).wf(),
            final(self).now() == old(self).now(),
            final(self).dump_path() == old(self).dump_path(),
            final(self).ttls() == old(self).ttls(),
            final(self).dict() == old(self).dict().insert(
                key@,
                (
                    ValueView::List(seq![value@] + old(self).dict()[key@].0->List_0),
                    old(self).now(),
                ),
            ),
            n == old(self).dict()[key@].0->List_0.len() + 1,
    {
        let mut list = match self.dictionary.get(key) {
            Some(slot) => match &slot.value {
                StorageValue::List(l) => crate::databasehelper::copy_strings(l),
                _ => Vec::new(),
            },
            None => Vec::new(),
        };
        let ghost l0 = list@;
        list.insert(0, String::from_str(value));
        proof {
            assert(strings_view(list@) =~= seq![value@] + strings_view(l0));
        }
        let n = list.len();
        self.store_list(key, list);
        n
    }

    /// Puts `value` at the head of the list of `key`, creating the list when
    /// the key is not live, and gives the new length.
    fn lpush_one(&mut self, key: &str, value: &str) -> (r: Result<SuccessQuery, DataBaseError>)
        requires
            old(self).wf(),
        ensures
            final(self).wf(),
            final(self).now() == old(self).now(),
            final(self).dump_path() == old(self).dump_path(),
            final(self).ttls() == old(self).ttls(),
            ({
                let d = old(self).dict();
                let now = old(self).now();
                if !old(self).live(key@) {
                    result_view(r) == Ok::<QueryView, DataBaseError>(QueryView::Integer(1))
                        && final(self).dict() == d.insert(key@, (ValueView::List(seq![value@]), now))
                } else {
                    match d[key@].0 {
                        ValueView::List(l) => result_view(r) == Ok::<QueryView, DataBaseError>(
                            QueryView::Integer((l.len() + 1) as i32),
                        ) && final(self).dict() == d.insert(
                            key@,
                            (ValueView::List(seq![value@] + l), now),
                        ),
                        _ => r == Err::<SuccessQuery, DataBaseError>(DataBaseError::NotAList)
                            && final(self).dict() == touched(d, key@, now),
                    }
                }
            }),
    {
        if !self._exists(key) {
            let mut list: Vec<String> = Vec::new();
            list.push(String::from_str(value));
            proof {
                assert(strings_view(list@) =~= seq![value@]);
            }
            self.store_list(key, list);
            return Ok(SuccessQuery::Integer(1));
        }
        self.dictionary.touch(key, self.clock);
        match self.list_of_any(key) {
            Some(_) => {
                let n = self.prepend(key, value);
                Ok(SuccessQuery::Integer(#[verifier::truncate] (n as i32)))
            },
            None => Err(DataBaseError::NotAList),
        }
    }

    /// What `lpush` gives and, where it changes the database, the state it
    /// leaves, from the state `pre` it finds.
    pub open spec fn lpush_post(pre: Database, post: Database, key: &str, values: Vec<&str>, r: Result<SuccessQuery, DataBaseError>) -> bool {
        &&& post.wf()
        &&& post.dump_path() == pre.dump_path()
        &&& post.ttls() == pre.ttls()
        &&& ({
            let d = pre.dict();
            let now = post.now();
            let vs = strs_view(values@);
            if !key_live(d, pre.ttls(), now, key@) {
                result_view(r) == Ok::<QueryView, DataBaseError>(
                    QueryView::Integer(vs.len() as i32),
                ) && post.dict() == d.insert(key@, (ValueView::List(vs.reverse()), now))
            } else {
                match d[key@].0 {
                    ValueView::List(l) => result_view(r) == Ok::<QueryView, DataBaseError>(
                        QueryView::Integer((vs.len() + l.len()) as i32),
                    ) && post.dict() == d.insert(
                        key@,
                        (ValueView::List(vs.reverse() + l), now),
                    ),
                    _ => r == Err::<SuccessQuery, DataBaseError>(DataBaseError::NotAList)
                        && post.dict() == touched(d, key@, now),
                }
            }
        })
    }

    /// Puts the values, one after the other, at the head of the list of
    /// `key` (so the last value ends up first), creating the list when the
    /// key is not live, and gives the new length.  Fails when the key holds
    /// a string or a set.
    pub fn lpush(&mut self, key: &str, values: Vec<&str>) -> (r: Result<SuccessQuery, DataBaseError>)
        requires
            old(self).wf(),
            values@.len() >= 1,
        ensures
            Database::lpush_post(*old(self), *final(self), key, values, r),
    {
        self.tick();
        let ghost d = self.dict();
        let ghost now = self.now();
        let ghost vs = strs_view(values@);
        let ghost base: Seq<Seq<char>> = if self.live(key@) && d[key@].0 is List {
            d[key@].0->List_0
        } else {
            Seq::empty()
        };
        let first = self.lpush_one(key, values[0]);
        if first.is_err() {
            return first;
        }
        proof {
            assert(vs.take(1).reverse() + base =~= seq![values[0]@] + base);
        }
        let mut i: usize = 1;
        let mut len: usize = match self.list_of_any(key) {
            Some(n) => n,
            None => 0,
        };
        while i < values.len()
            invariant
                self.wf(),
                1 <= i <= values@.len(),
                vs == strs_view(values@),
                self.now() == now,
                self.dump_path() == old(self).dump_path(),
                self.ttls() == old(self).ttls(),
                self.dict() == d.insert(
                    key@,
                    (ValueView::List(vs.take(i as int).reverse() + base), now),
                ),
                len == i + base.len(),
            decreases values.len() - i,
        {
            len = self.prepend(key, values[i]);
            proof {
                assert(vs.take(i + 1).reverse() + base =~= seq![vs[i as int]] + (vs.take(
                    i as int,
                ).reverse() + base));
            }
            i = i + 1;
        }
        proof {
            assert(vs.take(i as int) =~= vs);
        }
        Ok(SuccessQuery::Integer(#[verifier::truncate] (len as i32)))
    }

    /// The length of the list that `key` holds, if it holds one.
    fn list_of_any(&self, key: &str) -> (r: Option<usize>)
        requires
            self.wf(),
        ensures
            match r {
                Some(n) => self.dict().contains_key(key@) && self.dict()[key@].0 is List
                    && n == self.dict()[key@].0->List_0.len(),
                None => !(self.dict().contains_key(key@) && self.dict()[key@].0 is List),
            },
    {
        match self.dictionary.get(key) {
            Some(slot) => match &slot.value {
                StorageValue::List(l) => Some(l.len()),
                _ => None,
            },
            None => None,
        }
    }

    /// What `lpushx` gives and, where it changes the database, the state it
    /// leaves, from the state `pre` it finds.
    pub open spec fn lpushx_post(pre: Database, post: Database, key: &str, values: Vec<&str>, r: Result<SuccessQuery, DataBaseError>) -> bool {
        &&& post.wf()
        &&& post.dump_path() == pre.dump_path()
        &&& post.ttls() == pre.ttls()
        &&& ({
            let d = pre.dict();
            let now = post.now();
            let vs = strs_view(values@);
            if !key_live(d, pre.ttls(), now, key@) {
                result_view(r) == Ok::<QueryView, DataBaseError>(QueryView::Integer(0))
                    && post.dict() == d
            } else {
                match d[key@].0 {
                    ValueView::List(l) => result_view(r) == Ok::<QueryView, DataBaseError>(
                        QueryView::Integer((vs.len() + l.len()) as i32),
                    ) && post.dict() == d.insert(
                        key@,
                        (ValueView::List(vs.reverse() + l), now),
                    ),
                    _ => r == Err::<SuccessQuery, DataBaseError>(DataBaseError::NotAList)
                        && post.dict() == d,
                }
            }
        })
    }

    /// Puts the values at the head of the list of `key`, as `lpush`, but
    /// only when the key is live and holds a list; `Integer(0)` when the key
    /// is not live.
    pub fn lpushx(&mut self, key: &str, values: Vec<&str>) -> (r: Result<SuccessQuery, DataBaseError>)
        requires
            old(self).wf(),
        ensures
            Database::lpushx_post(*old(self), *final(self), key, values, r),
    {
        self.tick();
        if !self._exists(key) {
            return Ok(SuccessQuery::Integer(0));
        }
        let mut len: usize = match self.list_of_any(key) {
            Some(n) => n,
            None => {
                return Err(DataBaseError::NotAList);
            },
        };
        let ghost d = self.dict();
        let ghost now = self.now();
        let ghost vs = strs_view(values@);
        let ghost base = d[key@].0->List_0;
        self.dictionary.touch(key, self.clock);
        proof {
            assert(vs.take(0).reverse() + base =~= base);
        }
        let mut i: usize = 0;
        while i < values.len()
            invariant
                self.wf(),
                i <= values@.len(),
                vs == strs_view(values@),
                self.now() == now,
                self.dump_path() == old(self).dump_path(),
                self.ttls() == old(self).ttls(),
                self.dict() == d.insert(
                    key@,
                    (ValueView::List(vs.take(i as int).reverse() + base), now),
                ),
                len == i + base.len(),
            decreases values.len() - i,
        {
            len = self.prepend(key, values[i]);
            proof {
                assert(vs.take(i + 1).reverse() + base =~= seq![vs[i as int]] + (vs.take(
                    i as int,
                ).reverse() + base));
            }
            i = i + 1;
        }
        proof {
            assert(vs.take(i as int) =~= vs);
        }
        Ok(SuccessQuery::Integer(#[verifier::truncate] (len as i32)))
    }

    /// What `lrange` gives and, where it changes the database, the state it
    /// leaves, from the state `pre` it finds.
    pub open spec fn lrange_post(pre: Database, post: Database, key: &str, ini: i32, end: i32, r: Result<SuccessQuery, DataBaseError>) -> bool {
        &&& post.wf()
        &&& post.dump_path() == pre.dump_path()
        &&& post.ttls() == pre.ttls()
        &&& ({
            let d = pre.dict();
            let now = post.now();
            if !key_live(d, pre.ttls(), now, key@) {
                result_view(r) == Ok::<QueryView, DataBaseError>(str_items(Seq::empty()))
                    && post.dict() == d
            } else {
                match d[key@].0 {
                    ValueView::List(l) => {
                        let a = list_pos(l.len(), ini);
                        let b = list_pos(l.len(), end);
                        &&& post.dict() == touched(d, key@, now)
                        &&& result_view(r) == Ok::<QueryView, DataBaseError>(
                            str_items(
                                if 0 <= a <= b && b < (l.len() as i32) {
                                    l.subrange(a, b + 1)
                                } else {
                                    Seq::empty()
                                },
                            ),
                        )
                    },
                    _ => r == Err::<SuccessQuery, DataBaseError>(DataBaseError::NotAList)
                        && post.dict() == d,
                }
            }
        })
    }

    /// The elements of the list of `key` from position `ini` to position
    /// `end`, both included; negative positions count from the end.  Empty
    /// when the key is not live or the range is not within the list; an
    /// error when the key does not hold a list.
    pub fn lrange(&mut self, key: &str, ini: i32, end: i32) -> (r: Result<SuccessQuery, DataBaseError>)
        requires
            old(self).wf(),
        ensures
            Database::lrange_post(*old(self), *final(self), key, ini, end, r),
    {
        self.tick();
        let mut sub_list: Vec<SuccessQuery> = Vec::new();
        if !self._exists(key) {
            proof {
                assert(list_view(sub_list@) =~= Seq::<Seq<char>>::empty().map_values(
                    |x: Seq<char>| QueryView::Str(x),
                ));
                lemma_list_view(sub_list);
            }
            return Ok(SuccessQuery::List(sub_list));
        }
        let list = match self.list_of(key) {
            Some(l) => l,
            None => {
                return Err(DataBaseError::NotAList);
            },
        };
        let ghost lv = strings_view(list@);
        let len = (#[verifier::truncate] (list.len() as i32)) as i64;
        let a: i64 = if ini < 0 {
            len + ini as i64
        } else {
            ini as i64
        };
        let b: i64 = if end < 0 {
            len + end as i64
        } else {
            end as i64
        };
        let ghost sel: Seq<Seq<char>> = if 0 <= a <= b && b < len {
            lv.subrange(a as int, b + 1)
        } else {
            Seq::empty()
        };
        if 0 <= a && a <= b && b < len && (b as usize) < list.len() {
            let lo = a as usize;
            let hi = b as usize + 1;
            let mut i: usize = lo;
            proof {
                assert(list_view(sub_list@) =~= lv.subrange(a as int, i as int).map_values(
                    |x: Seq<char>| QueryView::Str(x),
                ));
            }
            while i < hi
                invariant
                    lo == a,
                    hi == b + 1,
                    hi <= list@.len(),
                    lo <= i <= hi,
                    lv == strings_view(list@),
                    list_view(sub_list@) == lv.subrange(a as int, i as int).map_values(
                        |x: Seq<char>| QueryView::Str(x),
                    ),
                decreases hi - i,
            {
                let ghost s0 = sub_list@;
                sub_list.push(SuccessQuery::String(list[i].clone()));
                proof {
                    assert(list_view(sub_list@) =~= list_view(s0).push(QueryView::Str(lv[i as int])));
                    assert(lv.subrange(a as int, i + 1).map_values(|x: Seq<char>| QueryView::Str(x))
                        =~= lv.subrange(a as int, i as int).map_values(
                        |x: Seq<char>| QueryView::Str(x),
                    ).push(QueryView::Str(lv[i as int])));
                }
                i = i + 1;
            }
        }
        proof {
            if !(0 <= a <= b && b < len) {
                assert(list_view(sub_list@) =~= sel.map_values(|x: Seq<char>| QueryView::Str(x)));
            } else {
                assert(sel.map_values(|x: Seq<char>| QueryView::Str(x)) =~= list_view(sub_list@));
            }
            lemma_list_view(sub_list);
        }
        self.dictionary.touch(key, self.clock);
        Ok(SuccessQuery::List(sub_list))
    }

    /// What `lrem` gives and, where it changes the database, the state it
    /// leaves, from the state `pre` it finds.
    pub open spec fn lrem_post(pre: Database, post: Database, key: &str, count: i32, elem: &str, r: Result<SuccessQuery, DataBaseError,>) -> bool {
        &&& post.wf()
        &&& post.dump_path() == pre.dump_path()
        &&& post.ttls() == pre.ttls()
        &&& ({
            let d = pre.dict();
            let now = post.now();
            if !key_live(d, pre.ttls(), now, key@) {
                result_view(r) == Ok::<QueryView, DataBaseError>(QueryView::Integer(0))
                    && post.dict() == d
            } else {
                match d[key@].0 {
                    ValueView::List(l) => {
                        let kept = lrem_list(l, count, elem@);
                        &&& result_view(r) == Ok::<QueryView, DataBaseError>(
                            QueryView::Integer(kept.len() as i32),
                        )
                        &&& post.dict() == d.insert(key@, (ValueView::List(kept), now))
                    },
                    _ => r == Err::<SuccessQuery, DataBaseError>(DataBaseError::NotAList)
                        && post.dict() == d,
                }
            }
        })
    }

    /// Removes occurrences of `elem` from the list of `key` as `lrem_list`
    /// says and gives the length of the list that is left; `Integer(0)` when
    /// the key is not live, an error when it does not hold a list.
    pub fn lrem(&mut self, key: &str, count: i32, elem: &str) -> (r: Result<
        SuccessQuery,
        DataBaseError,
    >)
        requires
            old(self).wf(),
        ensures
            Database::lrem_post(*old(self), *final(self), key, count, elem, r),
    {
        self.tick();
        if !self._exists(key) {
            return Ok(SuccessQuery::Integer(0));
        }
        let list = match self.list_of(key) {
            Some(l) => l,
            None => {
                return Err(DataBaseError::NotAList);
            },
        };
        let kept = if count > 0 {
            without_first(&list, elem, count as u64)
        } else if count < 0 {
            without_last(&list, elem, (-(count as i64)) as u64)
        } else {
            without_first(&list, elem, list.len() as u64)
        };
        let n = kept.len();
        self.store_list(key, kept);
        Ok(SuccessQuery::Integer(#[verifier::truncate] (n as i32)))
    }

    /// What `lset` gives and, where it changes the database, the state it
    /// leaves, from the state `pre` it finds.
    pub open spec fn lset_post(pre: Database, post: Database, key: &str, index: usize, value: &str, r: Result<SuccessQuery, DataBaseError,>) -> bool {
        &&& post.wf()
        &&& post.dump_path() == pre.dump_path()
        &&& post.ttls() == pre.ttls()
        &&& ({
            let d = pre.dict();
            let now = post.now();
            if !key_live(d, pre.ttls(), now, key@) {
                r == Err::<SuccessQuery, DataBaseError>(DataBaseError::NonExistentKey)
                    && post.dict() == d
            } else {
                match d[key@].0 {
                    ValueView::List(l) => if index < l.len() {
                        &&& result_view(r) == Ok::<QueryView, DataBaseError>(
                            QueryView::Success,
                        )
                        &&& post.dict() == d.insert(
                            key@,
                            (ValueView::List(l.update(index as int, value@)), now),
                        )
                    } else {
                        &&& r == Err::<SuccessQuery, DataBaseError>(
                            DataBaseError::IndexOutOfRange,
                        )
                        &&& post.dict() == touched(d, key@, now)
                    },
                    _ => r == Err::<SuccessQuery, DataBaseError>(DataBaseError::NotAList)
                        && post.dict() == d,
                }
            }
        })
    }

    /// Sets the element at `index` of the list of `key` to `value`.  Fails
    /// with `NonExistentKey` when the key is not live, `NotAList` when it
    /// does not hold a list, `IndexOutOfRange` when the list is too short (the
    /// key is then still marked as accessed).
    pub fn lset(&mut self, key: &str, index: usize, value: &str) -> (r: Result<
        SuccessQuery,
        DataBaseError,
    >)
        requires
            old(self).wf(),
        ensures
            Database::lset_post(*old(self), *final(self), key, index, value, r),
    {
        self.tick();
        if !self._exists(key) {
            return Err(DataBaseError::NonExistentKey);
        }
        let mut list = match self.list_of(key) {
            Some(l) => l,
            None => {
                return Err(DataBaseError::NotAList);
            },
        };
        if index < list.len() {
            let ghost l0 = strings_view(list@);
            list.set(index, String::from_str(value));
            proof {
                assert(strings_view(list@) =~= l0.update(index as int, value@));
            }
            self.store_list(key, list);
            Ok(SuccessQuery::Success)
        } else {
            self.dictionary.touch(key, self.clock);
            Err(DataBaseError::IndexOutOfRange)
        }
    }

    /// What `rpush` gives and, where it changes the database, the state it
    /// leaves, from the state `pre` it finds.
    pub open spec fn rpush_post(pre: Database, post: Database, key: &str, values: Vec<&str>, r: Result<SuccessQuery, DataBaseError,>) -> bool {
        &&& post.wf()
        &&& post.dump_path() == pre.dump_path()
        &&& post.ttls() == pre.ttls()
        &&& ({
            let d = pre.dict();
            let now = post.now();
            let vs = strs_view(values@);
            if !key_live(d, pre.ttls(), now, key@) {
                &&& result_view(r) == Ok::<QueryView, DataBaseError>(
                    QueryView::Integer(vs.len() as i32),
                )
                &&& post.dict() == d.insert(key@, (ValueView::List(vs), now))
            } else {
                match d[key@].0 {
                    ValueView::List(l) => {
                        &&& result_view(r) == Ok::<QueryView, DataBaseError>(
                            QueryView::Integer((l.len() + vs.len()) as i32),
                        )
                        &&& post.dict() == d.insert(
                            key@,
                            (ValueView::List(l + vs), now),
                        )
                    },
                    _ => r == Err::<SuccessQuery, DataBaseError>(DataBaseError::NotAList)
                        && post.dict() == d,
                }
            }
        })
    }

    /// Appends the values, in order, to the list of `key`, creating the list
    /// when the key is not live, and gives the new length.  Fails when the
    /// key holds a string or a set.
    pub fn rpush(&mut self, key: &str, values: Vec<&str>) -> (r: Result<
        SuccessQuery,
        DataBaseError,
    >)
        requires
            old(self).wf(),
        ensures
            Database::rpush_post(*old(self), *final(self), key, values, r),
    {
        self.tick();
        let base: Vec<String> = if !self._exists(key) {
            Vec::new()
        } else {
            match self.list_of(key) {
                Some(l) => l,
                None => {
                    return Err(DataBaseError::NotAList);
                },
            }
        };
        proof {
            if !self.live(key@) {
                assert(strings_view(base@) + strs_view(values@) =~= strs_view(values@));
            }
        }
        let list = appended(base, &values);
        let n = list.len();
        proof {
            assert(strings_view(list@).len() == n);
            assert(strs_view(values@).len() == values@.len());
        }
        self.store_list(key, list);
        Ok(SuccessQuery::Integer(#[verifier::truncate] (n as i32)))
    }

    /// What `rpushx` gives and, where it changes the database, the state it
    /// leaves, from the state `pre` it finds.
    pub open spec fn rpushx_post(pre: Database, post: Database, key: &str, values: Vec<&str>, r: Result<SuccessQuery, DataBaseError,>) -> bool {
        &&& post.wf()
        &&& post.dump_path() == pre.dump_path()
        &&& post.ttls() == pre.ttls()
        &&& ({
            let d = pre.dict();
            let now = post.now();
            let vs = strs_view(values@);
            if !key_live(d, pre.ttls(), now, key@) {
                result_view(r) == Ok::<QueryView, DataBaseError>(QueryView::Boolean(false))
                    && post.dict() == d
            } else {
                match d[key@].0 {
                    ValueView::List(l) => {
                        &&& result_view(r) == Ok::<QueryView, DataBaseError>(
                            QueryView::Integer((l.len() + vs.len()) as i32),
                        )
                        &&& post.dict() == d.insert(
                            key@,
                            (ValueView::List(l + vs), now),
                        )
                    },
                    _ => r == Err::<SuccessQuery, DataBaseError>(DataBaseError::NotAList)
                        && post.dict() == d,
                }
            }
        })
    }

    /// Appends the values to the list of `key`, as `rpush`, but only when
    /// the key is live and holds a list; `Boolean(false)` when it is not
    /// live.
    pub fn rpushx(&mut self, key: &str, values: Vec<&str>) -> (r: Result<
        SuccessQuery,
        DataBaseError,
    >)
        requires
            old(self).wf(),
        ensures
            Database::rpushx_post(*old(self), *final(self), key, values, r),
    {
        self.tick();
        if !self._exists(key) {
            return Ok(SuccessQuery::Boolean(false));
        }
        let base = match self.list_of(key) {
            Some(l) => l,
            None => {
                return Err(DataBaseError::NotAList);
            },
        };
        let list = appended(base, &values);
        let n = list.len();
        proof {
            assert(strings_view(list@).len() == n);
            assert(strs_view(values@).len() == values@.len());
        }
        self.store_list(key, list);
        Ok(SuccessQuery::Integer(#[verifier::truncate] (n as i32)))
    }


    // SETS

    /// The members of the set of a live key, copied, if it holds a set.
    fn set_of(&self, key: &str) -> (r: Option<Vec<String>>)
        requires
            self.wf(),
            self.live(key@),
        ensures
            match r {
                Some(m) => self.dict()[key@].0 == ValueView::Members(strings_view(m@))
                    && strings_view(m@).no_duplicates(),
                None => !(self.dict()[key@].0 is Members),
            },
    {
        proof {
            self.lemma_wf();
        }
        match self.dictionary.get(key) {
            Some(slot) => match &slot.value {
                StorageValue::StringSet(m) => Some(crate::databasehelper::copy_strings(m)),
                _ => None,
            },
            None => None,
        }
    }

    /// Stores the members `m` at `key`, accessed now.
    fn store_members(&mut self, key: &str, m: Vec<String>)
        requires
            old(self).wf(),
            strings_view(m@).no_duplicates(),
        ensures
            final(self).wf(),
            final(self).now() == old(self).now(),
            final(self).dump_path() == old(self).dump_path(),
            final(self).ttls() == old(self).ttls(),
            final(self).dict() == old(self).dict().insert(
                key@,
                (ValueView::Members(strings_view(m@)), old(self).now()),
            ),
    {
        self.dictionary.insert(String::from_str(key), StorageValue::StringSet(m), self.clock);
    }

    /// What `sismember` gives and, where it changes the database, the state it
    /// leaves, from the state `pre` it finds.
    pub open spec fn sismember_post(pre: Database, post: Database, key: &str, value: &str, r: Result<SuccessQuery, DataBaseError,>) -> bool {
        &&& post.wf()
        &&& post.dump_path() == pre.dump_path()
        &&& post.ttls() == pre.ttls()
        &&& ({
            let d = pre.dict();
            let now = post.now();
            if !key_live(d, pre.ttls(), now, key@) {
                result_view(r) == Ok::<QueryView, DataBaseError>(QueryView::Boolean(false))
                    && post.dict() == d
            } else {
                match d[key@].0 {
                    ValueView::Members(m) => result_view(r) == Ok::<QueryView, DataBaseError>(
                        QueryView::Boolean(m.contains(value@)),
                    ) && post.dict() == touched(d, key@, now),
                    _ => r == Err::<SuccessQuery, DataBaseError>(DataBaseError::NotASet)
                        && post.dict() == d,
                }
            }
        })
    }

    /// Whether `value` is a member of the set of `key`; `Boolean(false)` when
    /// the key is not live, an error when it does not hold a set.
    pub fn sismember(&mut self, key: &str, value: &str) -> (r: Result<
        SuccessQuery,
        DataBaseError,
    >)
        requires
            old(self).wf(),
        ensures
            Database::sismember_post(*old(self), *final(self), key, value, r),
    {
        self.tick();
        if !self._exists(key) {
            return Ok(SuccessQuery::Boolean(false));
        }
        match self.set_of(key) {
            Some(m) => {
                self.dictionary.touch(key, self.clock);
                let found = position_of(&m, value);
                proof {
                    if let Some(i) = found {
                        assert(strings_view(m@)[i as int] == value@);
                    }
                }
                Ok(SuccessQuery::Boolean(found.is_some()))
            },
            None => Err(DataBaseError::NotASet),
        }
    }

    /// What `scard` gives and, where it changes the database, the state it
    /// leaves, from the state `pre` it finds.
    pub open spec fn scard_post(pre: Database, post: Database, key: &str, r: Result<SuccessQuery, DataBaseError>) -> bool {
        &&& post.wf()
        &&& post.dump_path() == pre.dump_path()
        &&& post.ttls() == pre.ttls()
        &&& ({
            let d = pre.dict();
            let now = post.now();
            if !key_live(d, pre.ttls(), now, key@) {
                result_view(r) == Ok::<QueryView, DataBaseError>(QueryView::Boolean(false))
                    && post.dict() == d
            } else {
                match d[key@].0 {
                    ValueView::Members(m) => result_view(r) == Ok::<QueryView, DataBaseError>(
                        QueryView::Integer(m.len() as i32),
                    ) && post.dict() == touched(d, key@, now),
                    _ => r == Err::<SuccessQuery, DataBaseError>(DataBaseError::NotASet)
                        && post.dict() == d,
                }
            }
        })
    }

    /// The number of members of the set of `key`; `Boolean(false)` when the
    /// key is not live, an error when it does not hold a set.
    pub fn scard(&mut self, key: &str) -> (r: Result<SuccessQuery, DataBaseError>)
        requires
            old(self).wf(),
        ensures
            Database::scard_post(*old(self), *final(self), key, r),
    {
        self.tick();
        if !self._exists(key) {
            return Ok(SuccessQuery::Boolean(false));
        }
        match self.set_of(key) {
            Some(m) => {
                self.dictionary.touch(key, self.clock);
                Ok(SuccessQuery::Integer(#[verifier::truncate] (m.len() as i32)))
            },
            None => Err(DataBaseError::NotASet),
        }
    }

    /// Adds the values to the set of `key` at the clock last read, creating
    /// the set when the key is not live, and gives how many were not members
    /// yet.
    fn add_to_set(&mut self, key: &str, values: &Vec<&str>) -> (r: Result<
        SuccessQuery,
        DataBaseError,
    >)
        requires
            old(self).wf(),
        ensures
            final(self).wf(),
            final(self).now() == old(self).now(),
            final(self).dump_path() == old(self).dump_path(),
            final(self).ttls() == old(self).ttls(),
            ({
                let d = old(self).dict();
                let now = old(self).now();
                let vs = strs_view(values@);
                if !old(self).live(key@) {
                    let m1 = add_members(Seq::empty(), vs);
                    &&& result_view(r) == Ok::<QueryView, DataBaseError>(
                        QueryView::Integer(m1.len() as i32),
                    )
                    &&& final(self).dict() == d.insert(key@, (ValueView::Members(m1), now))
                } else {
                    match d[key@].0 {
                        ValueView::Members(m) => {
                            let m1 = add_members(m, vs);
                            &&& result_view(r) == Ok::<QueryView, DataBaseError>(
                                QueryView::Integer((m1.len() - m.len()) as i32),
                            )
                            &&& final(self).dict() == d.insert(
                                key@,
                                (ValueView::Members(m1), now),
                            )
                        },
                        _ => r == Err::<SuccessQuery, DataBaseError>(DataBaseError::NotASet)
                            && final(self).dict() == d,
                    }
                }
            }),
    {
        let mut m: Vec<String> = if !self._exists(key) {
            Vec::new()
        } else {
            match self.set_of(key) {
                Some(m) => m,
                None => {
                    return Err(DataBaseError::NotASet);
                },
            }
        };
        let ghost base = strings_view(m@);
        let ghost vs = strs_view(values@);
        let base_len = m.len();
        proof {
            assert(vs.take(0) =~= Seq::<Seq<char>>::empty());
            lemma_add_members_unique(base, vs);
        }
        let mut i: usize = 0;
        while i < values.len()
            invariant
                i <= values@.len(),
                vs == strs_view(values@),
                base_len == base.len(),
                base.no_duplicates(),
                strings_view(m@) == add_members(base, vs.take(i as int)),
            decreases values.len() - i,
        {
            proof {
                assert(vs.take(i + 1).drop_last() =~= vs.take(i as int));
                assert(vs.take(i + 1).last() == values@[i as int]@);
            }
            match position_of(&m, values[i]) {
                Some(j) => {
                    proof {
                        assert(strings_view(m@)[j as int] == values@[i as int]@);
                    }
                },
                None => {
                    let ghost o = strings_view(m@);
                    m.push(String::from_str(values[i]));
                    proof {
                        assert(strings_view(m@) =~= o.push(values@[i as int]@));
                    }
                },
            }
            i = i + 1;
        }
        proof {
            assert(vs.take(i as int) =~= vs);
            lemma_add_members_unique(base, vs);
            assert(strings_view(m@).len() == m@.len());
            if !old(self).live(key@) {
                assert(base =~= Seq::<Seq<char>>::empty());
            }
        }
        let added = m.len() - base_len;
        self.store_members(key, m);
        Ok(SuccessQuery::Integer(#[verifier::truncate] (added as i32)))
    }

    /// Adds `value` to the set of `key`: `Integer(1)` when it was not a
    /// member (a key that is not live gets a new set), `Integer(0)` when it
    /// was; an error when the key holds a string or a list.
    pub fn sadd_one(&mut self, key: &str, value: &str) -> (r: Result<
        SuccessQuery,
        DataBaseError,
    >)
        requires
            old(self).wf(),
        ensures
            final(self).wf(),
            final(self).dump_path() == old(self).dump_path(),
            final(self).ttls() == old(self).ttls(),
            ({
                let d = old(self).dict();
                let now = final(self).now();
                if !key_live(d, old(self).ttls(), now, key@) {
                    &&& result_view(r) == Ok::<QueryView, DataBaseError>(QueryView::Integer(1))
                    &&& final(self).dict() == d.insert(
                        key@,
                        (ValueView::Members(seq![value@]), now),
                    )
                } else {
                    match d[key@].0 {
                        ValueView::Members(m) => if m.contains(value@) {
                            &&& result_view(r) == Ok::<QueryView, DataBaseError>(
                                QueryView::Integer(0),
                            )
                            &&& final(self).dict() == touched(d, key@, now)
                        } else {
                            &&& result_view(r) == Ok::<QueryView, DataBaseError>(
                                QueryView::Integer(1),
                            )
                            &&& final(self).dict() == d.insert(
                                key@,
                                (ValueView::Members(m.push(value@)), now),
                            )
                        },
                        _ => r == Err::<SuccessQuery, DataBaseError>(DataBaseError::NotASet)
                            && final(self).dict() == d,
                    }
                }
            }),
    {
        self.tick();
        let values = vec![value];
        proof {
            let vs = strs_view(values@);
            assert(vs =~= seq![value@]);
            assert(vs.drop_last() =~= Seq::<Seq<char>>::empty());
            assert(add_members(Seq::empty(), vs.drop_last()) == Seq::<Seq<char>>::empty());
            assert(Seq::<Seq<char>>::empty().push(value@) =~= seq![value@]);
            if self.live(key@) && self.dict()[key@].0 is Members {
                let m = self.dict()[key@].0->Members_0;
                assert(add_members(m, vs.drop_last()) == m);
            }
        }
        self.add_to_set(key, &values)
    }

    /// What `sadd` gives and, where it changes the database, the state it
    /// leaves, from the state `pre` it finds.
    pub open spec fn sadd_post(pre: Database, post: Database, key: &str, values: Vec<&str>, r: Result<SuccessQuery, DataBaseError,>) -> bool {
        &&& post.wf()
        &&& post.dump_path() == pre.dump_path()
        &&& post.ttls() == pre.ttls()
        &&& ({
            let d = pre.dict();
            let now = post.now();
            let vs = strs_view(values@);
            if !key_live(d, pre.ttls(), now, key@) {
                let m1 = add_members(Seq::empty(), vs);
                &&& result_view(r) == Ok::<QueryView, DataBaseError>(
                    QueryView::Integer(m1.len() as i32),
                )
                &&& post.dict() == d.insert(key@, (ValueView::Members(m1), now))
            } else {
                match d[key@].0 {
                    ValueView::Members(m) => {
                        let m1 = add_members(m, vs);
                        &&& result_view(r) == Ok::<QueryView, DataBaseError>(
                            QueryView::Integer((m1.len() - m.len()) as i32),
                        )
                        &&& post.dict() == d.insert(
                            key@,
                            (ValueView::Members(m1), now),
                        )
                    },
                    _ => r == Err::<SuccessQuery, DataBaseError>(DataBaseError::NotASet)
                        && post.dict() == d,
                }
            }
        })
    }

    /// Adds each of the values to the set of `key` and gives how many were
    /// not members yet; a key that is not live gets a new set.  Fails with
    /// `NotASet` when the key holds a string or a list.
    pub fn sadd(&mut self, key: &str, values: Vec<&str>) -> (r: Result<
        SuccessQuery,
        DataBaseError,
    >)
        requires
            old(self).wf(),
            values@.len() >= 1,
        ensures
            Database::sadd_post(*old(self), *final(self), key, values, r),
    {
        self.tick();
        self.add_to_set(key, &values)
    }

    /// What `smembers` gives and, where it changes the database, the state it
    /// leaves, from the state `pre` it finds.
    pub open spec fn smembers_post(pre: Database, post: Database, key: &str, r: Result<SuccessQuery, DataBaseError>) -> bool {
        &&& post.wf()
        &&& post.dump_path() == pre.dump_path()
        &&& post.ttls() == pre.ttls()
        &&& ({
            let d = pre.dict();
            let now = post.now();
            if !key_live(d, pre.ttls(), now, key@) {
                result_view(r) == Ok::<QueryView, DataBaseError>(str_items(Seq::empty()))
                    && post.dict() == d
            } else {
                match d[key@].0 {
                    ValueView::Members(m) => result_view(r) == Ok::<QueryView, DataBaseError>(
                        str_items(m),
                    ) && post.dict() == touched(d, key@, now),
                    _ => r == Err::<SuccessQuery, DataBaseError>(DataBaseError::NotASet)
                        && post.dict() == d,
                }
            }
        })
    }

    /// The members of the set of `key`, in the order they were added; empty
    /// when the key is not live, an error when it does not hold a set.
    pub fn smembers(&mut self, key: &str) -> (r: Result<SuccessQuery, DataBaseError>)
        requires
            old(self).wf(),
        ensures
            Database::smembers_post(*old(self), *final(self), key, r),
    {
        self.tick();
        let mut result: Vec<SuccessQuery> = Vec::new();
        if !self._exists(key) {
            proof {
                assert(list_view(result@) =~= Seq::<Seq<char>>::empty().map_values(
                    |x: Seq<char>| QueryView::Str(x),
                ));
                lemma_list_view(result);
            }
            return Ok(SuccessQuery::List(result));
        }
        let m = match self.set_of(key) {
            Some(m) => m,
            None => {
                return Err(DataBaseError::NotASet);
            },
        };
        self.dictionary.touch(key, self.clock);
        let ghost mv = strings_view(m@);
        let mut i: usize = 0;
        while i < m.len()
            invariant
                i <= m@.len(),
                mv == strings_view(m@),
                list_view(result@) == mv.take(i as int).map_values(|x: Seq<char>| QueryView::Str(x)),
            decreases m.len() - i,
        {
            let ghost r0 = result@;
            result.push(SuccessQuery::String(m[i].clone()));
            proof {
                assert(list_view(result@) =~= list_view(r0).push(QueryView::Str(mv[i as int])));
                assert(mv.take(i + 1).map_values(|x: Seq<char>| QueryView::Str(x)) =~= mv.take(
                    i as int,
                ).map_values(|x: Seq<char>| QueryView::Str(x)).push(QueryView::Str(mv[i as int])));
            }
            i = i + 1;
        }
        proof {
            assert(mv.take(i as int) =~= mv);
            lemma_list_view(result);
        }
        Ok(SuccessQuery::List(result))
    }

    /// What `srem` gives and, where it changes the database, the state it
    /// leaves, from the state `pre` it finds.
    pub open spec fn srem_post(pre: Database, post: Database, key: &str, members_to_rmv: Vec<&str>, r: Result<SuccessQuery, DataBaseError,>) -> bool {
        &&& post.wf()
        &&& post.dump_path() == pre.dump_path()
        &&& post.ttls() == pre.ttls()
        &&& ({
            let d = pre.dict();
            let now = post.now();
            if !key_live(d, pre.ttls(), now, key@) {
                result_view(r) == Ok::<QueryView, DataBaseError>(QueryView::Boolean(false))
                    && post.dict() == d
            } else {
                match d[key@].0 {
                    ValueView::Members(m) => {
                        let m1 = without_members(m, strs_view(members_to_rmv@));
                        &&& result_view(r) == Ok::<QueryView, DataBaseError>(
                            QueryView::Integer((m.len() - m1.len()) as i32),
                        )
                        &&& post.dict() == d.insert(
                            key@,
                            (ValueView::Members(m1), now),
                        )
                    },
                    _ => r == Err::<SuccessQuery, DataBaseError>(DataBaseError::NotASet)
                        && post.dict() == d,
                }
            }
        })
    }

    /// Removes the given members from the set of `key` and gives how many
    /// were members; `Boolean(false)` when the key is not live, an error when
    /// it does not hold a set.
    pub fn srem(&mut self, key: &str, members_to_rmv: Vec<&str>) -> (r: Result<
        SuccessQuery,
        DataBaseError,
    >)
        requires
            old(self).wf(),
        ensures
            Database::srem_post(*old(self), *final(self), key, members_to_rmv, r),
    {
        self.tick();
        if !self._exists(key) {
            return Ok(SuccessQuery::Boolean(false));
        }
        let m = match self.set_of(key) {
            Some(m) => m,
            None => {
                return Err(DataBaseError::NotASet);
            },
        };
        let kept = members_without(&m, &members_to_rmv);
        proof {
            lemma_without_members(strings_view(m@), strs_view(members_to_rmv@));
        }
        let count = m.len() - kept.len();
        self.store_members(key, kept);
        Ok(SuccessQuery::Integer(#[verifier::truncate] (count as i32)))
    }


    // SORT

    /// The items ordered by the weights the keys of the pattern give.
    pub open spec fn weigher(&self, items: Seq<Seq<char>>) -> spec_fn(Seq<char>) -> Result<
        Seq<Seq<char>>,
        DataBaseError,
    > {
        |p: Seq<char>|
            by_result(items, p, self.dict(), self.ttls(), self.now())
    }

    /// The key `pattern` names for the item `e` (see `star_key`).
    fn star_key_of(pattern: &str, e: &str) -> (r: String)
        ensures
            r@ == star_key(pattern@, e@),
    {
        match find_char(pattern, '*') {
            Some(i) => {
                let n = pattern.unicode_len();
                proof {
                    crate::text::lemma_first_index(pattern@, '*');
                }
                let mut r = String::from_str(pattern.substring_char(0, i));
                r.append(e);
                r.append(pattern.substring_char(i + 1, n));
                proof {
                    assert(pattern@.subrange(0, i as int) =~= pattern@.take(i as int));
                    assert(pattern@.subrange(i + 1, n as int) =~= pattern@.skip(i + 1));
                }
                r
            },
            None => String::from_str(pattern),
        }
    }

    /// The weight the key `k` gives (see `weight_for`).
    fn weight_of(&self, k: &str) -> (r: Option<i32>)
        requires
            self.wf(),
        ensures
            r == weight_for(self.dict(), self.ttls(), self.now(), k@),
    {
        if !self._exists(k) {
            return Some(0);
        }
        match self.dictionary.get(k) {
            Some(slot) => match &slot.value {
                StorageValue::String(v) => parse_i32(v.as_str()),
                _ => Some(0),
            },
            None => Some(0),
        }
    }

    /// Orders the items by their weights, each taken from the key that is
    /// `pattern` with its first `*` replaced by the item (see `weight_for`);
    /// items of equal weight keep their order.  Fails with
    /// `SortByParseError` when such a key holds a string that is not an
    /// `i32`.  Nothing changes.
    pub fn sort_by(&mut self, to_order: &mut Vec<String>, pattern: &str) -> (r: Result<
        Vec<String>,
        DataBaseError,
    >)
        requires
            old(self).wf(),
        ensures
            *final(self) == *old(self),
            final(to_order)@ == old(to_order)@,
            match r {
                Ok(v) => old(self).weigher(strings_view(old(to_order)@))(pattern@) == Ok::<
                    Seq<Seq<char>>,
                    DataBaseError,
                >(strings_view(v@)),
                Err(e) => old(self).weigher(strings_view(old(to_order)@))(pattern@) == Err::<
                    Seq<Seq<char>>,
                    DataBaseError,
                >(e),
            },
    {
        let ghost items = strings_view(to_order@);
        let ghost d = self.dict();
        let ghost t = self.ttls();
        let ghost now = self.now();
        let mut ws: Vec<i32> = Vec::new();
        let mut k: usize = 0;
        while k < to_order.len()
            invariant
                self.wf(),
                *self == *old(self),
                to_order@ == old(to_order)@,
                items == strings_view(to_order@),
                d == self.dict(),
                t == self.ttls(),
                now == self.now(),
                k <= to_order@.len(),
                ws@.len() == k,
                forall|j: int|
                    0 <= j < k ==> weight_for(d, t, now, star_key(pattern@, items[j])) == Some(
                        #[trigger] ws@[j],
                    ),
            decreases to_order.len() - k,
        {
            let e = to_order[k].as_str();
            let key = Database::star_key_of(pattern, e);
            let w_opt = self.weight_of(key.as_str());
            proof {
                assert(items[k as int] == to_order@[k as int]@);
                assert(e@ == items[k as int]);
            }
            match w_opt {
                Some(w) => {
                    ws.push(w);
                },
                None => {
                    proof {
                        assert(weight_for(d, t, now, star_key(pattern@, items[k as int])) is None);
                        assert(item_weights(items, pattern@, d, t, now) is None);
                    }
                    return Err(DataBaseError::SortByParseError);
                },
            }
            k = k + 1;
        }
        proof {
            assert forall|j: int| 0 <= j < items.len() implies (#[trigger] weight_for(
                d,
                t,
                now,
                star_key(pattern@, items[j]),
            )) is Some by {
                assert(weight_for(d, t, now, star_key(pattern@, items[j])) == Some(ws@[j]));
            }
            assert(items.map_values(
                |e: Seq<char>| weight_for(d, t, now, star_key(pattern@, e))->Some_0,
            ) =~= ws@);
        }
        let order = sort_by_weight(&ws);
        let ghost ps = positioned(ws@);
        proof {
            lemma_number_orders();
            ps.lemma_sort_by_ensures(weight_order());
        }
        let mut out: Vec<String> = Vec::new();
        let mut q: usize = 0;
        while q < order.len()
            invariant
                to_order@ == old(to_order)@,
                items == strings_view(to_order@),
                ws@.len() == to_order@.len(),
                ps == positioned(ws@),
                order@ == ps.sort_by(weight_order()),
                forall|x: (usize, i32)| !ps.contains(x) ==> !(#[trigger] order@.contains(x)),
                q <= order@.len(),
                strings_view(out@) == order@.take(q as int).map_values(
                    |p: (usize, i32)| items[p.0 as int],
                ),
            decreases order.len() - q,
        {
            let pair = order[q];
            proof {
                assert(order@.contains(pair));
                assert(ps.contains(pair));
                let x = choose|x: int| 0 <= x < ps.len() && ps[x] == pair;
                assert(ps.len() == ws.len());
                assert(ps[x] == (x as usize, ws@[x]));
                assert(pair.0 as int == x);
            }
            let ghost o = strings_view(out@);
            out.push(to_order[pair.0].clone());
            proof {
                assert(strings_view(out@) =~= o.push(items[pair.0 as int]));
                assert(order@.take(q + 1).map_values(|p: (usize, i32)| items[p.0 as int])
                    =~= order@.take(q as int).map_values(|p: (usize, i32)| items[p.0 as int]).push(
                    items[pair.0 as int],
                ));
            }
            q = q + 1;
        }
        proof {
            assert(order@.take(q as int) =~= order@);
        }
        Ok(out)
    }

    /// What `LIMIT` does before the list is sorted: `limit_view` of the
    /// list's length, the offset and the count.  The list itself is left as
    /// it is.
    pub fn limit(to_order: &mut Vec<String>, pos_begin: &mut i32, num_elems: &mut i32) -> (r: Vec<
        String,
    >)
        ensures
            final(to_order)@ == old(to_order)@,
            ({
                let lv = limit_view(old(to_order)@.len() as int, *old(pos_begin), *old(num_elems));
                &&& *final(pos_begin) == lv.1
                &&& *final(num_elems) == lv.2
                &&& strings_view(r@) == (if lv.0 {
                    Seq::empty()
                } else {
                    strings_view(old(to_order)@)
                })
            }),
    {
        let l = #[verifier::truncate] (to_order.len() as i32);
        if *pos_begin >= l {
            return Vec::new();
        }
        if *num_elems == 0 {
            return Vec::new();
        }
        if *pos_begin < 0 {
            *pos_begin = 0;
        }
        if *num_elems < 0 || *num_elems > l {
            *num_elems = l;
        }
        copy_strings(to_order)
    }

    /// `limit`, then the numbers of what is left, ascending.
    pub fn sort_limit(to_order: &mut Vec<String>, pos_begin: &mut i32, num_elems: &mut i32) -> (r:
        Result<Vec<String>, DataBaseError>)
        ensures
            final(to_order)@ == old(to_order)@,
            ({
                let lv = limit_view(old(to_order)@.len() as int, *old(pos_begin), *old(num_elems));
                let kept = if lv.0 {
                    Seq::empty()
                } else {
                    strings_view(old(to_order)@)
                };
                &&& *final(pos_begin) == lv.1
                &&& *final(num_elems) == lv.2
                &&& match r {
                    Ok(v) => numeric_sort(kept, false) == Ok::<Seq<Seq<char>>, DataBaseError>(
                        strings_view(v@),
                    ),
                    Err(e) => numeric_sort(kept, false) == Err::<Seq<Seq<char>>, DataBaseError>(e),
                }
            }),
    {
        let mut to_build: Vec<String> = Database::limit(to_order, pos_begin, num_elems);
        Database::sort_without_flags(&mut to_build)
    }

    /// Reverses the list in place and gives a copy of it.
    pub fn desc(to_order: &mut Vec<String>) -> (r: Vec<String>)
        ensures
            strings_view(final(to_order)@) == strings_view(old(to_order)@).reverse(),
            strings_view(r@) == strings_view(old(to_order)@).reverse(),
    {
        let rev = crate::strvec::reversed(to_order);
        let out = copy_strings(&rev);
        *to_order = rev;
        out
    }

    /// The numbers of the list, descending, written in decimal; fails with
    /// `SortParseError` when an item is not an `i32`.
    pub fn sort_desc(to_order: &mut Vec<String>) -> (r: Result<Vec<String>, DataBaseError>)
        ensures
            final(to_order)@ == old(to_order)@,
            match r {
                Ok(v) => numeric_sort(strings_view(old(to_order)@), true) == Ok::<
                    Seq<Seq<char>>,
                    DataBaseError,
                >(strings_view(v@)),
                Err(e) => numeric_sort(strings_view(old(to_order)@), true) == Err::<
                    Seq<Seq<char>>,
                    DataBaseError,
                >(e),
            },
    {
        numbers_sorted(to_order, true)
    }

    /// The numbers of the list, ascending, written in decimal; fails with
    /// `SortParseError` when an item is not an `i32`.
    pub fn sort_without_flags(to_order: &mut Vec<String>) -> (r: Result<Vec<String>, DataBaseError>)
        ensures
            final(to_order)@ == old(to_order)@,
            match r {
                Ok(v) => numeric_sort(strings_view(old(to_order)@), false) == Ok::<
                    Seq<Seq<char>>,
                    DataBaseError,
                >(strings_view(v@)),
                Err(e) => numeric_sort(strings_view(old(to_order)@), false) == Err::<
                    Seq<Seq<char>>,
                    DataBaseError,
                >(e),
            },
    {
        numbers_sorted(to_order, false)
    }

    /// String replies of the `num_elems` items from `pos_begin`.
    pub fn build_sort_vector(to_build: Vec<String>, pos_begin: &i32, num_elems: &i32) -> (r: Result<
        Vec<SuccessQuery>,
        DataBaseError,
    >)
        ensures
            replies_of(r) == Ok::<Seq<QueryView>, DataBaseError>(
                str_replies(build_view(strings_view(to_build@), *pos_begin, *num_elems)),
            ),
    {
        let ghost tv = strings_view(to_build@);
        let mut result_list: Vec<SuccessQuery> = Vec::new();
        if *num_elems > 0 {
            let len = to_build.len();
            let start: usize = if *pos_begin < 0 {
                0
            } else if (*pos_begin as usize) > len {
                len
            } else {
                *pos_begin as usize
            };
            let wanted: i64 = *pos_begin as i64 + *num_elems as i64;
            let end: usize = if wanted < 0 {
                0
            } else if (wanted as u64 as u128) > (len as u128) {
                len
            } else {
                wanted as usize
            };
            proof {
                assert(start as int == clamp_pos(*pos_begin as int, tv.len() as int));
                assert(end as int == clamp_pos(*pos_begin + *num_elems, tv.len() as int));
            }
            let mut i: usize = start;
            proof {
                assert(list_view(result_list@) =~= str_replies(tv.subrange(start as int, start as int)));
            }
            while i < end
                invariant
                    start <= i <= end || (end < start && i == start),
                    end <= to_build@.len(),
                    tv == strings_view(to_build@),
                    start <= end ==> list_view(result_list@) == str_replies(tv.subrange(start as int, i as int)),
                decreases end - i,
            {
                let ghost r0 = result_list@;
                result_list.push(SuccessQuery::String(to_build[i].clone()));
                proof {
                    assert(list_view(result_list@) =~= list_view(r0).push(QueryView::Str(tv[i as int])));
                    assert(str_replies(tv.subrange(start as int, i + 1)) =~= str_replies(
                        tv.subrange(start as int, i as int),
                    ).push(QueryView::Str(tv[i as int])));
                }
                i = i + 1;
            }
        } else {
            proof {
                assert(list_view(result_list@) =~= str_replies(Seq::empty()));
            }
        }
        Ok(result_list)
    }

    /// Sorts the items as the options say (see `sort_outcome`); the weights
    /// of `BY` come from the keys.  Nothing changes.
    pub fn _sort(&mut self, to_order: &mut Vec<String>, sort_flags: SortFlags) -> (r: Result<
        Vec<SuccessQuery>,
        DataBaseError,
    >)
        requires
            old(self).wf(),
            sort_fits(old(to_order)@.len() as int, sort_flags),
        ensures
            *final(self) == *old(self),
            final(to_order)@ == old(to_order)@,
            replies_of(r) == outcome_replies(
                sort_outcome(
                    strings_view(old(to_order)@),
                    sort_flags,
                    old(self).weigher(strings_view(old(to_order)@)),
                ),
            ),
    {
        let ghost items0 = strings_view(to_order@);
        let len = to_order.len();
        let n = len as i32;
        let mut items = copy_strings(to_order);
        proof {
            lemma_number_orders();
            lemma_alpha_order();
        }
        match sort_flags {
            SortFlags::WithoutFlags => match Database::sort_without_flags(&mut items) {
                Ok(s) => {
                    proof {
                        let ns = crate::sortflags::parsed_numbers(items0)->Some_0;
                        lemma_sort_by_len(ns, crate::sortflags::number_order(false));
                        assert(ns.len() == items0.len());
                        assert(strings_view(s@).len() == s@.len());
                    }
                    Database::build_sort_vector(s, &0, &n)
                },
                Err(e) => Err(e),
            },
            SortFlags::Alpha => {
                let s = sort_alpha(&items);
                proof {
                    lemma_sort_by_len(items0, alpha_order());
                    assert(strings_view(s@).len() == s@.len());
                }
                Database::build_sort_vector(s, &0, &n)
            },
            SortFlags::Desc => match Database::sort_desc(&mut items) {
                Ok(s) => {
                    proof {
                        let ns = crate::sortflags::parsed_numbers(items0)->Some_0;
                        lemma_sort_by_len(ns, crate::sortflags::number_order(true));
                        assert(ns.len() == items0.len());
                        assert(strings_view(s@).len() == s@.len());
                    }
                    Database::build_sort_vector(s, &0, &n)
                },
                Err(e) => Err(e),
            },
            SortFlags::Limit(p, c) => {
                let mut pos = p;
                let mut num = c;
                match Database::sort_limit(&mut items, &mut pos, &mut num) {
                    Ok(s) => {
                        proof {
                            let lv = limit_view(items0.len() as int, p, c);
                            let kept = if lv.0 {
                                Seq::<Seq<char>>::empty()
                            } else {
                                items0
                            };
                            let ns = crate::sortflags::parsed_numbers(kept)->Some_0;
                            lemma_sort_by_len(ns, crate::sortflags::number_order(false));
                            assert(ns.len() == kept.len());
                            assert(strings_view(s@).len() == s@.len());
                        }
                        Database::build_sort_vector(s, &pos, &num)
                    },
                    Err(e) => Err(e),
                }
            },
            SortFlags::By(pattern) => match self.sort_by(&mut items, pattern) {
                Ok(s) => {
                    proof {
                        let ws = item_weights(
                            items0,
                            pattern@,
                            self.dict(),
                            self.ttls(),
                            self.now(),
                        )->Some_0;
                        lemma_sort_by_len(positioned(ws), weight_order());
                        assert(ws.len() == items0.len());
                        assert(positioned(ws).len() == ws.len());
                        assert(strings_view(s@).len() == s@.len());
                    }
                    Database::build_sort_vector(s, &0, &n)
                },
                Err(e) => Err(e),
            },
            SortFlags::CompositeFlags(fs) => {
                if fs.len() == 2 && flags_have_limit(&fs) && flags_have_desc(&fs) {
                    match Database::sort_desc(&mut items) {
                        Ok(mut s) => {
                            proof {
                                let ns = crate::sortflags::parsed_numbers(items0)->Some_0;
                                lemma_sort_by_len(ns, crate::sortflags::number_order(true));
                            }
                            let (p, c) = flags_first_limit(&fs);
                            let mut pos = p;
                            let mut num = c;
                            let l = Database::limit(&mut s, &mut pos, &mut num);
                            Database::build_sort_vector(l, &pos, &num)
                        },
                        Err(e) => Err(e),
                    }
                } else {
                    let by = flags_first_by(&fs);
                    let mut cur: Vec<String> = match by {
                        Some(pattern) => match self.sort_by(&mut items, pattern) {
                            Ok(s) => s,
                            Err(e) => {
                                return Err(e);
                            },
                        },
                        None => items,
                    };
                    proof {
                        if has_by(fs@) {
                            let ws = item_weights(
                                items0,
                                first_by(fs@),
                                self.dict(),
                                self.ttls(),
                                self.now(),
                            )->Some_0;
                            lemma_sort_by_len(positioned(ws), weight_order());
                        }
                    }
                    if flags_have_alpha(&fs) && by.is_none() {
                        let ghost c0 = strings_view(cur@);
                        cur = sort_alpha(&cur);
                        proof {
                            lemma_sort_by_len(c0, alpha_order());
                        }
                    }
                    let ghost start = strings_view(cur@);
                    let mut pos: i32 = 0;
                    let mut num: i32 = n;
                    let mut k: usize = 0;
                    proof {
                        assert(fs@.skip(0) =~= fs@);
                    }
                    while k < fs.len()
                        invariant
                            k <= fs@.len(),
                            start.len() == items0.len(),
                            apply_flags(strings_view(cur@), pos, num, fs@.skip(k as int))
                                == apply_flags(start, 0, n, fs@),
                        decreases fs.len() - k,
                    {
                        proof {
                            assert(fs@.skip(k as int)[0] == fs@[k as int]);
                            assert(fs@.skip(k as int).drop_first() =~= fs@.skip(k + 1));
                        }
                        match &fs[k] {
                            SortFlags::Desc => {
                                cur = Database::desc(&mut cur);
                            },
                            SortFlags::Limit(p, c) => {
                                pos = *p;
                                num = *c;
                                cur = Database::limit(&mut cur, &mut pos, &mut num);
                            },
                            _ => {},
                        }
                        k = k + 1;
                    }
                    proof {
                        assert(fs@.skip(k as int) =~= Seq::<SortFlags>::empty());
                        lemma_apply_flags_len(start, 0, n, fs@);
                    }
                    Database::build_sort_vector(cur, &pos, &num)
                }
            },
        }
    }

    /// What `sort` gives and, where it changes the database, the state it
    /// leaves, from the state `pre` it finds.
    pub open spec fn sort_post(pre: Database, post: Database, key: &str, sort_flags: SortFlags, r: Result<SuccessQuery, DataBaseError,>) -> bool {
        &&& post.wf()
        &&& post.dump_path() == pre.dump_path()
        &&& post.ttls() == pre.ttls()
        &&& ({
            let d = pre.dict();
            let now = post.now();
            if !key_live(d, pre.ttls(), now, key@) {
                result_view(r) == Ok::<QueryView, DataBaseError>(QueryView::List(Seq::empty()))
                    && post.dict() == d
            } else {
                &&& post.dict() == touched(d, key@, now)
                &&& match d[key@].0 {
                    ValueView::Str(_) => r == Err::<SuccessQuery, DataBaseError>(
                        DataBaseError::NotAList,
                    ),
                    ValueView::List(items) => result_view(r) == match outcome_replies(
                        sort_outcome(items, sort_flags, post.weigher(items)),
                    ) {
                        Ok(q) => Ok::<QueryView, DataBaseError>(QueryView::List(q)),
                        Err(e) => Err(e),
                    },
                    ValueView::Members(items) => result_view(r) == match outcome_replies(
                        sort_outcome(items, sort_flags, post.weigher(items)),
                    ) {
                        Ok(q) => Ok::<QueryView, DataBaseError>(QueryView::List(q)),
                        Err(e) => Err(e),
                    },
                }
            }
        })
    }

    /// The items of the list or set of `key` sorted as the options say (see
    /// `sort_outcome`); an empty list when the key is not live, `NotAList`
    /// when it holds a string.  The key is marked as accessed.
    pub fn sort(&mut self, key: &str, sort_flags: SortFlags) -> (r: Result<
        SuccessQuery,
        DataBaseError,
    >)
        requires
            old(self).wf(),
            sort_input_fits(old(self).dict(), key@, sort_flags),
        ensures
            Database::sort_post(*old(self), *final(self), key, sort_flags, r),
    {
        self.tick();
        if !self._exists(key) {
            let empty: Vec<SuccessQuery> = Vec::new();
            proof {
                lemma_list_view(empty);
                assert(list_view(empty@) =~= Seq::<QueryView>::empty());
            }
            return Ok(SuccessQuery::List(empty));
        }
        let mut to_order: Vec<String> = match self.dictionary.get(key) {
            Some(slot) => match &slot.value {
                StorageValue::List(l) => copy_strings(l),
                StorageValue::StringSet(m) => copy_strings(m),
                _ => {
                    self.dictionary.touch(key, self.clock);
                    return Err(DataBaseError::NotAList);
                },
            },
            None => Vec::new(),
        };
        self.dictionary.touch(key, self.clock);
        match self._sort(&mut to_order, sort_flags) {
            Ok(result_list) => {
                proof {
                    lemma_list_view(result_list);
                }
                Ok(SuccessQuery::List(result_list))
            },
            Err(e) => Err(e),
        }
    }


    // DUMP

    /// The text of the dump file.
    pub open spec fn dump_view(&self) -> Seq<char> {
        "TTL "@ + ttl_text(self.ttl_entries()) + "\n"@ + value_lines(self.keys_seq(), self.dict())
    }

    /// The text the database is saved as: a line `TTL ` followed by
    /// `Key:<key>,Ttl:<secs>;` for each key that expires, in order of expiry
    /// time, then a line `Key:<key>,<serialized value>` for each key.
    pub fn dump_text(&self) -> (r: String)
        requires
            self.wf(),
        ensures
            r@ == self.dump_view(),
    {
        proof {
            reveal_strlit("TTL ");
            reveal_strlit("Key:");
            reveal_strlit(",Ttl:");
            reveal_strlit(";");
            reveal_strlit("\n");
            reveal_strlit(",");
        }
        let mut out = String::from_str("TTL ");
        let list = self.ttl.list();
        let ghost es = ttl_pairs(list@);
        let mut i: usize = 0;
        proof {
            assert(es.take(0) =~= Seq::<(Seq<char>, u64)>::empty());
        }
        while i < list.len()
            invariant
                i <= list@.len(),
                es == ttl_pairs(list@),
                out@ == "TTL "@ + ttl_text(es.take(i as int)),
            decreases list.len() - i,
        {
            let ghost o = out@;
            out.append("Key:");
            out.append(list[i].key.as_str());
            out.append(",Ttl:");
            let secs = int_to_string(list[i].expire_time as i128);
            out.append(secs.as_str());
            out.append(";");
            proof {
                assert(es.take(i + 1).drop_last() =~= es.take(i as int));
                assert(es.take(i + 1).last() == (list@[i as int].key@, list@[i as int].expire_time));
                assert(out@ =~= "TTL "@ + ttl_text(es.take(i + 1)));
            }
            i = i + 1;
        }
        proof {
            assert(es.take(i as int) =~= es);
        }
        out.append("\n");
        let kv = self.dictionary.key_value();
        let ghost ks = self.keys_seq();
        let ghost head = out@;
        let mut j: usize = 0;
        proof {
            assert(head + value_lines(ks.take(0), self.dict()) =~= head);
        }
        while j < kv.len()
            invariant
                self.wf(),
                j <= kv@.len(),
                ks == self.keys_seq(),
                kv@.len() == ks.len(),
                forall|q: int|
                    0 <= q < kv@.len() ==> (#[trigger] kv@[q]).0@ == ks[q] && kv@[q].1@
                        == self.dict()[ks[q]].0,
                out@ == head + value_lines(ks.take(j as int), self.dict()),
            decreases kv.len() - j,
        {
            out.append("Key:");
            out.append(kv[j].0.as_str());
            out.append(",");
            let v = kv[j].1.serialize();
            out.append(v.as_str());
            out.append("\n");
            proof {
                assert(ks.take(j + 1).drop_last() =~= ks.take(j as int));
                assert(ks.take(j + 1).last() == kv@[j as int].0@);
            }
            j = j + 1;
        }
        proof {
            assert(ks.take(j as int) =~= ks);
        }
        out
    }

    /// The key and time of an item of a `TTL` line.
    fn read_ttl_item(item: &str) -> (r: (String, i64))
        requires
            ttl_item_ok(item@),
        ensures
            (r.0@, r.1) == ttl_item(item@),
            r.1 >= 0,
    {
        let kv = split_char(item, ',');
        let key_parts = split_char(kv[0], ':');
        let ttl_parts = split_char(kv[1], ':');
        let key = String::from_str(key_parts[1]);
        match parse_i64(ttl_parts[1]) {
            Some(t) => (key, t),
            None => (key, 0),
        }
    }

    /// Decides whether `load` can read the line: `dump_line_ok` and
    /// `line_cut_ok`.
    pub fn dump_line_readable(line: &str) -> (b: bool)
        ensures
            b == (dump_line_ok(line@) && line_cut_ok(line@)),
    {
        if !line.is_char_boundary(3) {
            return false;
        }
        let cs = crate::text::chars_of(line);
        let is_ttl = cs.len() >= 3 && cs[0] == 'T' && cs[1] == 'T' && cs[2] == 'L';
        proof {
            assert(cs@ == line@);
        }
        if is_ttl {
            let w = split_ws(line);
            let ghost items = ttl_items(line@);
            if w.len() <= 1 {
                proof {
                    assert(items =~= Seq::<Seq<char>>::empty());
                }
                return true;
            }
            let parts = split_char(w[1], ';');
            let ghost pv = split_on(w@[1]@, ';');
            let mut k: usize = 0;
            proof {
                assert(pv.take(0) =~= Seq::<Seq<char>>::empty());
            }
            while k < parts.len()
                invariant
                    k <= parts@.len(),
                    parts@.len() == pv.len(),
                    forall|q: int| 0 <= q < parts@.len() ==> (#[trigger] parts@[q])@ == pv[q],
                    items == nonempty_parts(pv),
                    items == ttl_items(line@),
                    is_ttl_line(line@),
                    forall|q: int|
                        0 <= q < nonempty_parts(pv.take(k as int)).len() ==> ttl_item_ok(
                            #[trigger] nonempty_parts(pv.take(k as int))[q],
                        ),
                decreases parts.len() - k,
            {
                proof {
                    assert(pv.take(k + 1).drop_last() =~= pv.take(k as int));
                    lemma_nonempty_prefix(pv, k as int);
                }
                if parts[k].unicode_len() > 0 {
                    let item = parts[k];
                    let kv = split_char(item, ',');
                    let ghost kvv = split_on(item@, ',');
                    let ok = if kv.len() >= 2 {
                        let key_parts = split_char(kv[0], ':');
                        let ttl_parts = split_char(kv[1], ':');
                        if key_parts.len() >= 2 && ttl_parts.len() >= 2 {
                            match parse_i64(ttl_parts[1]) {
                                Some(t) => t >= 0,
                                None => false,
                            }
                        } else {
                            false
                        }
                    } else {
                        false
                    };
                    proof {
                        assert(item@ == pv[k as int]);
                        if kv@.len() >= 2 {
                            assert(kv@[0]@ == kvv[0]);
                            assert(kv@[1]@ == kvv[1]);
                        }
                        assert(ok == ttl_item_ok(item@));
                    }
                    if !ok {
                        proof {
                            let c = nonempty_parts(pv.take(k as int)).len() as int;
                            lemma_nonempty_prefix_of(pv, k + 1);
                            assert(nonempty_parts(pv.take(k + 1))[c] == pv[k as int]);
                            assert(items[c] == pv[k as int]);
                            assert(c < items.len());
                            assert(!ttl_item_ok(items[c]));
                            assert(!dump_line_ok(line@));
                        }
                        return false;
                    }
                }
                k = k + 1;
            }
            proof {
                assert(pv.take(k as int) =~= pv);
            }
            true
        } else {
            let kv = split_char(line, ',');
            if kv.len() >= 2 {
                let key_parts = split_char(kv[0], ':');
                key_parts.len() >= 2
            } else {
                false
            }
        }
    }

    /// Reads the lines of a dump, as `dump_text` writes them: each value line
    /// whose value part describes a value is stored (accessed now), then
    /// `expireat` is applied to each key and time of the `TTL` lines.
    pub fn load(&mut self, lines: Vec<&str>)
        requires
            old(self).wf(),
            forall|i: int| 0 <= i < lines@.len() ==> dump_line_ok(#[trigger] lines@[i]@),
            forall|i: int| 0 <= i < lines@.len() ==> line_cut_ok(#[trigger] lines@[i]@),
        ensures
            final(self).wf(),
            final(self).dump_path() == old(self).dump_path(),
            ({
                let ls = strs_view(lines@);
                let d1 = loaded_values(old(self).dict(), ls, final(self).now());
                let st = expire_all(d1, old(self).ttls(), final(self).now(), loaded_expires(ls));
                &&& final(self).dict() == st.0
                &&& final(self).ttls() == st.1
            }),
    {
        self.tick();
        let ghost ls = strs_view(lines@);
        let ghost now = self.now();
        let mut expires: Vec<(String, i64)> = Vec::new();
        let mut i: usize = 0;
        proof {
            assert(ls.take(0) =~= Seq::<Seq<char>>::empty());
        }
        while i < lines.len()
            invariant
                self.wf(),
                self.now() == now,
                self.dump_path() == old(self).dump_path(),
                self.ttls() == old(self).ttls(),
                i <= lines@.len(),
                ls == strs_view(lines@),
                forall|q: int| 0 <= q < lines@.len() ==> dump_line_ok(#[trigger] lines@[q]@),
                self.dict() == loaded_values(old(self).dict(), ls.take(i as int), now),
                expires@.len() == loaded_expires(ls.take(i as int)).len(),
                forall|q: int|
                    0 <= q < expires@.len() ==> ((#[trigger] expires@[q]).0@, expires@[q].1)
                        == loaded_expires(ls.take(i as int))[q],
                forall|q: int| 0 <= q < expires@.len() ==> (#[trigger] expires@[q]).1 >= 0,
            decreases lines.len() - i,
        {
            let line = lines[i];
            proof {
                assert(ls.take(i + 1).drop_last() =~= ls.take(i as int));
                assert(ls.take(i + 1).last() == line@);
                assert(dump_line_ok(lines@[i as int]@));
            }
            let cs = crate::text::chars_of(line);
            let is_ttl = cs.len() >= 3 && cs[0] == 'T' && cs[1] == 'T' && cs[2] == 'L';
            if is_ttl {
                let w = split_ws(line);
                let ghost items = ttl_items(line@);
                let ghost base = expires@;
                let ghost pre = loaded_expires(ls.take(i as int));
                if w.len() > 1 {
                    let parts = split_char(w[1], ';');
                    let ghost pv = split_on(w@[1]@, ';');
                    let mut k: usize = 0;
                    proof {
                        assert(pv.take(0) =~= Seq::<Seq<char>>::empty());
                    }
                    while k < parts.len()
                        invariant
                            k <= parts@.len(),
                            parts@.len() == pv.len(),
                            forall|q: int| 0 <= q < parts@.len() ==> (#[trigger] parts@[q])@ == pv[q],
                            items == nonempty_parts(pv),
                            forall|q: int|
                                0 <= q < items.len() ==> ttl_item_ok(#[trigger] items[q]),
                            expires@.len() == pre.len() + nonempty_parts(pv.take(k as int)).len(),
                            forall|q: int|
                                0 <= q < pre.len() ==> ((#[trigger] expires@[q]).0@, expires@[q].1)
                                    == pre[q],
                            forall|q: int|
                                pre.len() <= q < expires@.len() ==> ((#[trigger] expires@[q]).0@,
                                expires@[q].1) == ttl_item(
                                    nonempty_parts(pv.take(k as int))[q - pre.len()],
                                ),
                            forall|q: int| 0 <= q < expires@.len() ==> (#[trigger] expires@[q]).1 >= 0,
                        decreases parts.len() - k,
                    {
                        proof {
                            assert(pv.take(k + 1).drop_last() =~= pv.take(k as int));
                            lemma_nonempty_prefix(pv, k as int);
                        }
                        if parts[k].unicode_len() > 0 {
                            proof {
                                let c = nonempty_parts(pv.take(k as int)).len() as int;
                                lemma_nonempty_prefix_of(pv, k + 1);
                                assert(nonempty_parts(pv.take(k + 1))[c] == pv[k as int]);
                                assert(items[c] == pv[k as int]);
                                assert(ttl_item_ok(items[c]));
                            }
                            let item = Database::read_ttl_item(parts[k]);
                            expires.push(item);
                        }
                        k = k + 1;
                    }
                    proof {
                        assert(pv.take(k as int) =~= pv);
                    }
                }
            } else {
                let kv = split_char(line, ',');
                let key_parts = split_char(kv[0], ':');
                match StorageValue::unserialize(kv[1]) {
                    Ok(value) => {
                        self.dictionary.insert(String::from_str(key_parts[1]), value, self.clock);
                    },
                    Err(_) => {},
                }
            }
            i = i + 1;
        }
        proof {
            assert(ls.take(i as int) =~= ls);
        }
        let ghost es = loaded_expires(ls);
        let ghost d1 = self.dict();
        let mut q: usize = 0;
        proof {
            assert(es.take(0) =~= Seq::<(Seq<char>, i64)>::empty());
        }
        while q < expires.len()
            invariant
                self.wf(),
                self.now() == now,
                self.dump_path() == old(self).dump_path(),
                q <= expires@.len(),
                expires@.len() == es.len(),
                forall|x: int| 0 <= x < expires@.len() ==> ((#[trigger] expires@[x]).0@, expires@[x].1)
                    == es[x],
                forall|x: int| 0 <= x < expires@.len() ==> (#[trigger] expires@[x]).1 >= 0,
                (self.dict(), self.ttls()) == expire_all(d1, old(self).ttls(), now, es.take(q as int)),
            decreases expires.len() - q,
        {
            proof {
                assert(es.take(q + 1).drop_last() =~= es.take(q as int));
                assert(es.take(q + 1).last() == es[q as int]);
                assert(expires@[q as int].1 >= 0);
            }
            self.expireat_at(expires[q].0.as_str(), expires[q].1);
            q = q + 1;
        }
        proof {
            assert(es.take(q as int) =~= es);
        }
    }


    /// The number of items of the list or set at `key`, if it holds one.
    pub fn stored_len(&self, key: &str) -> (r: Option<usize>)
        requires
            self.wf(),
        ensures
            match r {
                Some(n) => self.dict().contains_key(key@) && match self.dict()[key@].0 {
                    ValueView::List(l) => n == l.len(),
                    ValueView::Members(m) => n == m.len(),
                    ValueView::Str(_) => false,
                },
                None => !self.dict().contains_key(key@) || self.dict()[key@].0 is Str,
            },
    {
        match self.dictionary.get(key) {
            Some(slot) => match &slot.value {
                StorageValue::List(l) => Some(l.len()),
                StorageValue::StringSet(m) => Some(m.len()),
                _ => None,
            },
            None => None,
        }
    }

}

} // verus!
